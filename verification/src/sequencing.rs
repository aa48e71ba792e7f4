use vstd::prelude::*;
use crate::text::{dec_digits, push_char, u64_to_string};
use vstd::string::StringExecFns;

verus! {

/// A process-wide token source for temp-file names: the wall clock in
/// milliseconds joined to a counter that each call advances.
#[derive(Debug)]
pub struct Sequence {
    pub counter: u64,
}

impl Sequence {
    /// The next token: `<unix-millis>_<counter>`. Within one value of the
    /// counter's lifetime, tokens differ because the counter does.
    pub fn next(&mut self) -> (r: String)
        ensures
            final(self).counter == (if old(self).counter == u64::MAX {
                0u64
            } else {
                (old(self).counter + 1) as u64
            }),
            exists|m: nat|
                r@ == dec_digits(m) + "_"@ + dec_digits(old(self).counter as nat),
    {
        let millis = crate::clock::now_unix_millis();
        let mut s = u64_to_string(millis);
        push_char(&mut s, '_');
        let num = u64_to_string(self.counter);
        s.append(num.as_str());
        if self.counter == u64::MAX {
            self.counter = 0;
        } else {
            self.counter = self.counter + 1;
        }
        proof {
            assert(s@ =~= dec_digits(millis as nat) + "_"@ + dec_digits(old(self).counter as nat))
                by {
                assert(seq!['_'] =~= "_"@) by {
                    reveal_strlit("_");
                }
            }
        }
        s
    }
}

impl Default for Sequence {
    fn default() -> (r: Self)
        ensures
            r.counter == 0,
    {
        Sequence { counter: 0 }
    }
}

} // verus!
