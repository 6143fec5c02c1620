//! Small byte-vector helpers shared by the codec stages.

use vstd::prelude::*;

verus! {

/// Appends all bytes of `src` to `dst`.
pub fn push_all(dst: &mut Vec<u8>, src: &Vec<u8>)
    ensures
        final(dst)@ == old(dst)@ + src@,
{
    let mut t: usize = 0;
    proof {
        assert(dst@ =~= old(dst)@ + src@.take(0));
    }
    while t < src.len()
        invariant
            t <= src@.len(),
            dst@ == old(dst)@ + src@.take(t as int),
        decreases src@.len() - t,
    {
        dst.push(src[t]);
        proof {
            assert(old(dst)@ + src@.take(t as int + 1) =~= (old(dst)@ + src@.take(t as int)).push(
                src@[t as int],
            ));
        }
        t += 1;
    }
    proof {
        assert(src@.take(src@.len() as int) =~= src@);
    }
}

} // verus!
