//! Pointing a client's bundle at a profile: the bundle identifier in its
//! `Info.plist` carries the profile's id.
use crate::pattern::{regex_replace_first, replace_first};
use vstd::prelude::*;
use vstd::string::*;

verus! {

/// The `<string>` element that holds the bundle identifier, whether or not
/// it already carries a profile id.
pub open spec fn identifier_pattern() -> Seq<char> {
    "<string>com\\.roblox\\.RobloxPlayer\\.?\\w*<\\/string>"@
}

/// The element written in its place: the identifier followed by `.` and the
/// profile id, or the bare identifier when there is no profile.
pub open spec fn identifier_element(profile_id: Option<Seq<char>>) -> Seq<char> {
    match profile_id {
        Some(id) => "<string>com.roblox.RobloxPlayer."@ + id + "</string>"@,
        None => "<string>com.roblox.RobloxPlayer</string>"@,
    }
}

/// The property list `contents` with the first bundle-identifier element
/// replaced by the one for `profile_id`; nothing only if the pattern is
/// refused by the matcher.
pub fn rewrite_bundle_identifier(contents: &str, profile_id: Option<&str>) -> (r: Option<String>)
    ensures
        ({
            let id = match profile_id {
                Some(p) => Some(p@),
                None => None,
            };
            let expected = regex_replace_first(identifier_pattern(), contents@, identifier_element(id));
            &&& r is Some == expected is Some
            &&& r matches Some(s) ==> expected == Some(s@)
        }),
{
    let element = match profile_id {
        Some(id) => {
            let mut e = String::from_str("<string>com.roblox.RobloxPlayer.");
            e.append(id);
            e.append("</string>");
            e
        },
        None => String::from_str("<string>com.roblox.RobloxPlayer</string>"),
    };
    replace_first(
        "<string>com\\.roblox\\.RobloxPlayer\\.?\\w*<\\/string>",
        contents,
        element.as_str(),
    )
}

} // verus!
