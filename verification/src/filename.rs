use vstd::prelude::*;

verus! {

/// The output-format file suffix, as characters.
pub open spec fn ron_suffix() -> Seq<char> {
    seq!['.', 'r', 'o', 'n']
}

/// Index of the first `.` in `s`, or `s.len()` when there is none.
pub open spec fn first_dot(s: Seq<char>) -> int
    decreases s.len(),
{
    if s.len() == 0 {
        0
    } else if s[0] == '.' {
        0
    } else {
        1 + first_dot(s.drop_first())
    }
}

/// What `first_dot` returns: a position up to the length; when it is inside
/// the text, that character is a `.` and no earlier one is.
pub proof fn lemma_first_dot(s: Seq<char>)
    ensures
        0 <= first_dot(s) <= s.len(),
        first_dot(s) < s.len() ==> s[first_dot(s)] == '.',
        forall|i: int| 0 <= i < first_dot(s) ==> #[trigger] s[i] != '.',
    decreases s.len(),
{
    if s.len() > 0 && s[0] != '.' {
        lemma_first_dot(s.drop_first());
        assert forall|i: int| 0 <= i < first_dot(s) implies #[trigger] s[i] != '.' by {
            if i > 0 {
                assert(s.drop_first()[i - 1] == s[i]);
            }
        }
        if first_dot(s) < s.len() {
            assert(s.drop_first()[first_dot(s) - 1] == s[first_dot(s)]);
        }
    }
}

/// Derive the output file name from the input file name: everything before
/// the first `.` (the whole name when there is none), with `.ron` appended.
pub fn ron_filename(name: &Vec<char>) -> (r: Vec<char>)
    ensures
        r@ == name@.take(first_dot(name@)) + ron_suffix(),
{
    proof {
        lemma_first_dot(name@);
    }
    let mut out: Vec<char> = Vec::new();
    let n = name.len();
    let mut i: usize = 0;
    while i < n && name[i] != '.'
        invariant
            n == name@.len(),
            i <= n,
            out@ == name@.take(i as int),
            forall|t: int| 0 <= t < i ==> #[trigger] name@[t] != '.',
        decreases n - i,
    {
        out.push(name[i]);
        proof {
            assert(name@.take(i as int + 1) =~= name@.take(i as int).push(name@[i as int]));
        }
        i += 1;
    }
    proof {
        lemma_first_dot(name@);
        assert(first_dot(name@) == i as int);
    }
    out.push('.');
    out.push('r');
    out.push('o');
    out.push('n');
    proof {
        assert(out@ =~= name@.take(first_dot(name@)) + ron_suffix());
    }
    out
}

} // verus!
