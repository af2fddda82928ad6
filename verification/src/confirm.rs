use vstd::prelude::*;
use vstd::string::StrSliceExecFns;

verus! {

/// Whether `c` is a whitespace character, as trimming understands it.
pub open spec fn is_space(c: char) -> bool {
    let u = c as u32;
    u == 9 || u == 10 || u == 11 || u == 12 || u == 13 || u == 32 || u == 0x85 || u == 0xA0 || u
        == 0x1680 || (0x2000 <= u && u <= 0x200A) || u == 0x2028 || u == 0x2029 || u == 0x202F || u
        == 0x205F || u == 0x3000
}

fn is_space_char(c: char) -> (r: bool)
    ensures
        r == is_space(c),
{
    let u = c as u32;
    u == 9 || u == 10 || u == 11 || u == 12 || u == 13 || u == 32 || u == 0x85 || u == 0xA0 || u
        == 0x1680 || (0x2000 <= u && u <= 0x200A) || u == 0x2028 || u == 0x2029 || u == 0x202F || u
        == 0x205F || u == 0x3000
}

/// `cs` with its leading whitespace removed.
pub open spec fn trim_start(cs: Seq<char>) -> Seq<char>
    decreases cs.len(),
{
    if cs.len() == 0 {
        cs
    } else if is_space(cs[0]) {
        trim_start(cs.drop_first())
    } else {
        cs
    }
}

/// `cs` with its trailing whitespace removed.
pub open spec fn trim_end(cs: Seq<char>) -> Seq<char>
    decreases cs.len(),
{
    if cs.len() == 0 {
        cs
    } else if is_space(cs.last()) {
        trim_end(cs.drop_last())
    } else {
        cs
    }
}

/// `cs` with both its leading and its trailing whitespace removed.
pub open spec fn trimmed(cs: Seq<char>) -> Seq<char> {
    trim_end(trim_start(cs))
}

/// Whether a prompt answer counts as a confirmation: after trimming and case
/// folding it must read exactly `y`, so the trimmed answer is `y` or `Y` and
/// nothing else.
pub open spec fn spec_confirms(cs: Seq<char>) -> bool {
    trimmed(cs) == "y"@ || trimmed(cs) == "Y"@
}

/// Decides whether one line read from the prompt confirms a deletion: the
/// line is trimmed and case-folded and only an exact `y` accepts. Anything
/// else, the empty answer included, declines.
pub fn is_confirmation(input: &str) -> (r: bool)
    ensures
        r == spec_confirms(input@),
{
    let ghost cs = input@;
    let n = input.unicode_len();
    let mut lo: usize = 0;
    proof {
        assert(cs.skip(0) =~= cs);
        reveal_strlit("y");
        reveal_strlit("Y");
    }
    while lo < n && is_space_char(input.get_char(lo))
        invariant
            cs == input@,
            n == cs.len(),
            lo <= n,
            trim_start(cs) == trim_start(cs.skip(lo as int)),
        decreases n - lo,
    {
        proof {
            assert(cs.skip(lo as int)[0] == cs[lo as int]);
            assert(cs.skip(lo as int).drop_first() =~= cs.skip(lo as int + 1));
        }
        lo = lo + 1;
    }
    if lo == n {
        proof {
            assert(cs.skip(n as int) =~= Seq::<char>::empty());
            assert(trimmed(cs) == Seq::<char>::empty());
            assert(trimmed(cs) != "y"@ && trimmed(cs) != "Y"@);
        }
        return false;
    }
    let ghost s1 = cs.skip(lo as int);
    proof {
        assert(s1[0] == cs[lo as int]);
        assert(!is_space(s1[0]));
        assert(trim_start(cs) == s1);
    }
    let mut hi: usize = n;
    proof {
        assert(s1.take(n - lo) =~= s1);
    }
    while hi > lo + 1 && is_space_char(input.get_char(hi - 1))
        invariant
            cs == input@,
            n == cs.len(),
            lo < hi <= n,
            s1 == cs.skip(lo as int),
            trim_end(s1) == trim_end(s1.take(hi - lo)),
        decreases hi,
    {
        proof {
            let m = hi - lo;
            assert(s1.take(m as int).last() == cs[hi - 1]);
            assert(s1.take(m as int).drop_last() =~= s1.take(m as int - 1));
        }
        hi = hi - 1;
    }
    let c = input.get_char(hi - 1);
    if is_space_char(c) {
        proof {
            assert(hi == lo + 1);
            assert(s1.take(1).last() == cs[lo as int]);
        }
        return false;
    }
    proof {
        assert(s1.take(hi - lo).last() == cs[hi - 1]);
        assert(trim_end(s1.take(hi - lo)) == s1.take(hi - lo));
        assert(trimmed(cs) == s1.take(hi - lo));
    }
    let first = input.get_char(lo);
    let r = hi - lo == 1 && (first == 'y' || first == 'Y');
    proof {
        assert(s1.take(hi - lo)[0] == cs[lo as int]);
        if hi - lo == 1 && (cs[lo as int] == 'y' || cs[lo as int] == 'Y') {
            if cs[lo as int] == 'y' {
                assert(s1.take(1) =~= "y"@);
            } else {
                assert(s1.take(1) =~= "Y"@);
            }
        } else {
            if trimmed(cs) == "y"@ {
                assert(s1.take(hi - lo).len() == 1);
                assert(cs[lo as int] == 'y');
            }
            if trimmed(cs) == "Y"@ {
                assert(s1.take(hi - lo).len() == 1);
                assert(cs[lo as int] == 'Y');
            }
        }
    }
    r
}

} // verus!
