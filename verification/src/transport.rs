//! What the library decides about the server's answers over HTTP.
use vstd::prelude::*;

use crate::error::GitError;
use crate::text::bytes_equal;

verus! {

broadcast use vstd::seq::group_seq_axioms;

/// `application/x-git-upload-pack-advertisement`
pub open spec fn advertisement_type() -> Seq<u8> {
    seq![
        0x61u8, 0x70, 0x70, 0x6c, 0x69, 0x63, 0x61, 0x74, 0x69, 0x6f, 0x6e, 0x2f, 0x78, 0x2d, 0x67,
        0x69, 0x74, 0x2d, 0x75, 0x70, 0x6c, 0x6f, 0x61, 0x64, 0x2d, 0x70, 0x61, 0x63, 0x6b, 0x2d,
        0x61, 0x64, 0x76, 0x65, 0x72, 0x74, 0x69, 0x73, 0x65, 0x6d, 0x65, 0x6e, 0x74,
    ]
}

/// Checks the answer to a ref discovery request: status 200, and a content
/// type, where one is given, of a ref advertisement.
pub fn check_info_refs_response(status: u16, content_type: Option<&[u8]>) -> (r: Result<
    (),
    GitError,
>)
    ensures
        status != 200 ==> (r matches Err(GitError::BadStatus(s)) && s == status),
        status == 200 ==> match content_type {
            Some(c) => if c@ == advertisement_type() {
                r is Ok
            } else {
                r matches Err(GitError::BadContentType(v)) && v@ == c@
            },
            None => r is Ok,
        },
{
    if status != 200 {
        return Err(GitError::BadStatus(status));
    }
    match content_type {
        Some(c) => {
            let expected: [u8; 43] = [
                0x61, 0x70, 0x70, 0x6c, 0x69, 0x63, 0x61, 0x74, 0x69, 0x6f, 0x6e, 0x2f, 0x78, 0x2d,
                0x67, 0x69, 0x74, 0x2d, 0x75, 0x70, 0x6c, 0x6f, 0x61, 0x64, 0x2d, 0x70, 0x61, 0x63,
                0x6b, 0x2d, 0x61, 0x64, 0x76, 0x65, 0x72, 0x74, 0x69, 0x73, 0x65, 0x6d, 0x65, 0x6e,
                0x74,
            ];
            assert(expected@ =~= advertisement_type());
            if bytes_equal(c, expected.as_slice()) {
                Ok(())
            } else {
                Err(GitError::BadContentType(vstd::slice::slice_to_vec(c)))
            }
        },
        None => Ok(()),
    }
}

} // verus!
