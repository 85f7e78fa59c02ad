//! The text form of a list, for inspection: an opening bracket, each element
//! followed by a comma, a closing bracket.

use vstd::prelude::*;
use vstd::string::StringExecFns;

verus! {

/// The elements' texts in order, each followed by a comma.
pub open spec fn listed(parts: Seq<String>) -> Seq<char>
    decreases parts.len(),
{
    if parts.len() == 0 {
        Seq::empty()
    } else {
        listed(parts.drop_last()) + parts.last()@ + seq![',']
    }
}

/// The text of a list whose elements read `parts`.
pub open spec fn rendered(parts: Seq<String>) -> Seq<char> {
    seq!['['] + listed(parts) + seq![']']
}

/// Puts the texts of a list's elements, given front to back, into the text of
/// the list.
pub fn render(parts: &Vec<String>) -> (text: String)
    ensures
        text@ == rendered(parts@),
{
    let mut text = String::new();
    proof {
        reveal_strlit("[");
        reveal_strlit(",");
        reveal_strlit("]");
    }
    text.append("[");
    let mut i: usize = 0;
    while i < parts.len()
        invariant
            0 <= i <= parts.len(),
            text@ == seq!['['] + listed(parts@.take(i as int)),
            ","@ == seq![','],
            "]"@ == seq![']'],
        decreases parts.len() - i,
    {
        proof {
            let now = parts@.take(i + 1);
            assert(now.drop_last() =~= parts@.take(i as int));
            assert(now.last() == parts@[i as int]);
            assert(seq!['['] + listed(parts@.take(i as int)) + parts@[i as int]@ + seq![','] =~= seq![
                '[',
            ] + listed(now));
        }
        text.append(parts[i].as_str());
        text.append(",");
        i = i + 1;
    }
    proof {
        assert(parts@.take(i as int) =~= parts@);
    }
    text.append("]");
    text
}

} // verus!
