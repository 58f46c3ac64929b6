//! Lists of names as a phrase.

use vstd::prelude::*;
use vstd::string::StringExecFns;

verus! {

/// The texts of a list joined by a comma and a space.
pub open spec fn comma_joined(parts: Seq<Seq<char>>) -> Seq<char>
    decreases parts.len(),
{
    if parts.len() == 0 {
        Seq::empty()
    } else if parts.len() == 1 {
        parts[0]
    } else {
        comma_joined(parts.drop_last()) + ", "@ + parts.last()
    }
}

/// A list as a phrase: nothing for an empty list, the one text of a list of
/// one, and otherwise all texts but the last joined by commas, then " and "
/// and the last.
pub open spec fn and_comma_joined(parts: Seq<Seq<char>>) -> Seq<char> {
    if parts.len() == 0 {
        Seq::empty()
    } else if parts.len() == 1 {
        parts[0]
    } else {
        comma_joined(parts.drop_last()) + " and "@ + parts.last()
    }
}

/// The texts of a slice of strings.
pub open spec fn part_texts(m: Seq<String>) -> Seq<Seq<char>> {
    Seq::new(m.len(), |i: int| m[i]@)
}

/// Joins a list into a phrase such as "a, b and c".
pub fn and_comma_split(m: &[String]) -> (res: String)
    ensures
        res@ == and_comma_joined(part_texts(m@)),
{
    let len = m.len();
    let ghost parts = part_texts(m@);
    if len == 0 {
        let res = String::new();
        proof {
            assert(res@ =~= Seq::<char>::empty());
        }
        return res;
    }
    if len == 1 {
        return m[0].clone();
    }
    let mut res = m[0].clone();
    let mut i: usize = 1;
    proof {
        assert(parts.take(1).len() == 1);
    }
    while i < len - 1
        invariant
            1 <= i <= len - 1,
            len == m@.len(),
            parts == part_texts(m@),
            res@ == comma_joined(parts.take(i as int)),
        decreases len - i,
    {
        proof {
            assert(parts.take(i + 1).drop_last() =~= parts.take(i as int));
        }
        res.append(", ");
        res.append(m[i].as_str());
        i = i + 1;
    }
    proof {
        assert(parts.take(i as int) =~= parts.drop_last());
    }
    res.append(" and ");
    res.append(m[len - 1].as_str());
    res
}

} // verus!
