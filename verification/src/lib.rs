//! A document pre-processor that expands `{{#mdinclude ...}}` directives:
//! each one is replaced by the named file's content (optionally sliced to a
//! line range or an anchored region), relative links inside the inserted
//! content are corrected for the new location, and the inserted content is
//! expanded in turn up to a bounded depth.

use vstd::prelude::*;

pub mod engine;
pub mod laws;
pub mod parse;
pub mod paths;
pub mod rewrite;
pub mod scan;
pub mod select;
pub mod store;
pub mod util;

verus! {

/// The sentinel renderer name that is not supported.
pub open spec fn not_supported_name() -> Seq<u8> {
    seq![110u8, 111u8, 116u8, 45u8, 115u8, 117u8, 112u8, 112u8, 111u8, 114u8, 116u8, 101u8, 100u8]
}

/// The pre-processor itself.  It emits plain text, so it supports every
/// renderer but the sentinel name `not-supported`.
#[derive(Default)]
pub struct MdInclude;

impl MdInclude {
    /// Whether a renderer (given by its name, as bytes) is supported.
    pub fn supports_renderer(renderer: &[u8]) -> (r: bool)
        ensures
            r == (renderer@ != not_supported_name()),
    {
        if renderer.len() != 13 {
            return true;
        }
        let same = renderer[0] == 110 && renderer[1] == 111 && renderer[2] == 116 && renderer[3]
            == 45 && renderer[4] == 115 && renderer[5] == 117 && renderer[6] == 112 && renderer[7]
            == 112 && renderer[8] == 111 && renderer[9] == 114 && renderer[10] == 116
            && renderer[11] == 101 && renderer[12] == 100;
        proof {
            if same {
                assert(renderer@ =~= not_supported_name());
            }
        }
        !same
    }
}

} // verus!
