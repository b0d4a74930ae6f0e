//! What is handed to a GPU: the text of its kernels, and the sizes of its buffers.
use vstd::prelude::*;
use vstd::string::StringExecFns;

verus! {

/// The text that kernels are compiled from: what all have in common, and after it each source
/// on a line of its own.
pub open spec fn library_text(common: Seq<char>, sources: Seq<&str>) -> Seq<char>
    decreases sources.len(),
{
    if sources.len() == 0 {
        common
    } else {
        library_text(common, sources.drop_last()) + "\n"@ + sources.last()@
    }
}

/// The text that kernels are compiled from.
pub fn library(common: &str, sources: &Vec<&str>) -> (text: String)
    ensures
        text@ == library_text(common@, sources@),
{
    let mut text = String::new();
    text.append(common);
    let mut k: usize = 0;
    assert(text@ =~= library_text(common@, sources@.take(0)));
    while k < sources.len()
        invariant
            k <= sources@.len(),
            text@ == library_text(common@, sources@.take(k as int)),
        decreases sources@.len() - k,
    {
        proof {
            let t = sources@.take(k + 1);
            assert(t.drop_last() =~= sources@.take(k as int));
            assert(t.last() == sources@[k as int]);
        }
        text.append("\n");
        text.append(sources[k]);
        assert(text@ =~= library_text(common@, sources@.take(k + 1)));
        k += 1;
    }
    assert(sources@.take(k as int) =~= sources@);
    text
}

/// The bytes that a buffer is made with: there is none of fewer than 16.
pub fn buffer_bytes(asked: usize) -> (n: usize)
    ensures
        n == (if asked < 16 {
            16
        } else {
            asked
        }),
{
    if asked < 16 {
        16
    } else {
        asked
    }
}

} // verus!
