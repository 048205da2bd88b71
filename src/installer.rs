//! Finding a client's download in its install script.
use crate::pattern::{capture, regex_capture, upper_of, uppercase};
use vstd::prelude::*;
use vstd::string::*;

verus! {

/// The assignment that holds the archive's address in the install script of
/// client `client_upper` (its name in upper case).
pub open spec fn archive_url_pattern(client_upper: Seq<char>) -> Seq<char> {
    client_upper + "_M_URL=\"(https:\\/\\/\\w+\\.ufs\\.sh\\/f\\/\\w+)\""@
}

/// The address of the client's archive, as the install script `script`
/// assigns it to `<CLIENT>_M_URL`; nothing when the script holds none.
pub fn archive_url(client: &str, script: &str) -> (r: Option<String>)
    ensures
        ({
            let expected = regex_capture(archive_url_pattern(upper_of(client@)), script@, 1);
            &&& r is Some == expected is Some
            &&& r matches Some(s) ==> expected == Some(s@)
        }),
{
    let mut pattern = uppercase(client);
    pattern.append("_M_URL=\"(https:\\/\\/\\w+\\.ufs\\.sh\\/f\\/\\w+)\"");
    capture(pattern.as_str(), script, 1)
}

} // verus!
