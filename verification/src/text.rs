//! Building report text: decimal numbers and node paths.
use vstd::prelude::*;
use vstd::string::*;

verus! {

pub open spec fn digit_char(d: nat) -> char {
    ('0' as int + d) as char
}

/// The decimal digits of `n`.
pub open spec fn decimal(n: nat) -> Seq<char>
    decreases n,
{
    if n < 10 {
        seq![digit_char(n)]
    } else {
        decimal(n / 10).push(digit_char(n % 10))
    }
}

fn digit_str(d: usize) -> (r: &'static str)
    requires
        d < 10,
    ensures
        r@ == seq![digit_char(d as nat)],
{
    proof {
        reveal_strlit("0");
        reveal_strlit("1");
        reveal_strlit("2");
        reveal_strlit("3");
        reveal_strlit("4");
        reveal_strlit("5");
        reveal_strlit("6");
        reveal_strlit("7");
        reveal_strlit("8");
        reveal_strlit("9");
    }
    let r = match d {
        0 => "0",
        1 => "1",
        2 => "2",
        3 => "3",
        4 => "4",
        5 => "5",
        6 => "6",
        7 => "7",
        8 => "8",
        _ => "9",
    };
    proof {
        assert(r@ =~= seq![digit_char(d as nat)]);
    }
    r
}

/// Append the decimal form of `n` to `s`.
pub fn push_decimal(s: &mut String, n: usize)
    ensures
        final(s)@ == old(s)@ + decimal(n as nat),
    decreases n,
{
    if n >= 10 {
        push_decimal(s, n / 10);
    }
    s.append(digit_str(n % 10));
    proof {
        if n >= 10 {
            assert(final(s)@ =~= old(s)@ + decimal(n as nat));
        } else {
            assert(final(s)@ =~= old(s)@ + decimal(n as nat));
        }
    }
}

/// Append the decimal form of the 64-bit `n` to `s`.
pub fn push_decimal_u64(s: &mut String, n: u64)
    ensures
        final(s)@ == old(s)@ + decimal(n as nat),
    decreases n,
{
    if n >= 10 {
        push_decimal_u64(s, n / 10);
    }
    let d = (n % 10) as usize;
    s.append(digit_str(d));
    proof {
        assert(final(s)@ =~= old(s)@ + decimal(n as nat));
    }
}

/// The decimal form of `n`.
pub fn decimal_string(n: usize) -> (r: String)
    ensures
        r@ == decimal(n as nat),
{
    let mut s = String::new();
    push_decimal(&mut s, n);
    proof {
        assert(s@ =~= decimal(n as nat));
    }
    s
}

pub open spec fn root_path() -> Seq<char> {
    seq!['r', 'o', 'o', 't']
}

/// A child path segment: `/` then `tag`, then the index for indexed children.
pub open spec fn child_path(path: Seq<char>, tag: char, idx: Option<nat>) -> Seq<char> {
    match idx {
        Some(i) => path + seq!['/', tag] + decimal(i),
        None => path + seq!['/', tag],
    }
}

pub fn root_path_string() -> (r: String)
    ensures
        r@ == root_path(),
{
    proof {
        reveal_strlit("root");
    }
    let r = String::from_str("root");
    proof {
        assert(r@ =~= root_path());
    }
    r
}

/// `path` extended by the segment `/tag[idx]`; `tag` is one of `o`, `s`, `q`, `l`, `a`.
pub fn extend_path(path: &String, tag: char, idx: Option<usize>) -> (r: String)
    requires
        tag == 'o' || tag == 's' || tag == 'q' || tag == 'l' || tag == 'a',
    ensures
        r@ == child_path(path@, tag, match idx {
            Some(i) => Some(i as nat),
            None => None,
        }),
{
    proof {
        reveal_strlit("/o");
        reveal_strlit("/s");
        reveal_strlit("/q");
        reveal_strlit("/l");
        reveal_strlit("/a");
    }
    let seg = if tag == 'o' {
        "/o"
    } else if tag == 's' {
        "/s"
    } else if tag == 'q' {
        "/q"
    } else if tag == 'l' {
        "/l"
    } else {
        "/a"
    };
    assert(seg@ =~= seq!['/', tag]);
    let mut r = path.clone();
    r.append(seg);
    match idx {
        Some(i) => push_decimal(&mut r, i),
        None => {},
    }
    proof {
        assert(r@ =~= child_path(path@, tag, match idx {
            Some(i) => Some(i as nat),
            None => None,
        }));
    }
    r
}


/// The names of `v` separated by `sep`.
pub open spec fn joined(v: Seq<Seq<char>>, sep: Seq<char>) -> Seq<char>
    decreases v.len(),
{
    if v.len() == 0 {
        Seq::empty()
    } else if v.len() == 1 {
        v[0]
    } else {
        joined(v.drop_last(), sep) + sep + v.last()
    }
}

/// Append the strings of `v`, separated by `sep`, to `s`.
pub fn push_joined(s: &mut String, v: &Vec<String>, sep: &str)
    ensures
        final(s)@ == old(s)@ + joined(crate::names::strs_view(v@), sep@),
{
    let ghost base = s@;
    let ghost w = crate::names::strs_view(v@);
    let mut i: usize = 0;
    while i < v.len()
        invariant
            i <= v@.len(),
            w == crate::names::strs_view(v@),
            s@ == base + joined(w.take(i as int), sep@),
        decreases v@.len() - i,
    {
        proof {
            assert(w.take(i + 1).drop_last() =~= w.take(i as int));
            assert(w.take(i + 1).last() == v@[i as int]@);
        }
        if i > 0 {
            s.append(sep);
        }
        s.append(v[i].as_str());
        proof {
            if i == 0 {
                assert(w.take(1) =~= seq![v@[0]@]);
            }
            assert(s@ =~= base + joined(w.take(i + 1), sep@));
        }
        i = i + 1;
    }
    proof {
        assert(w.take(i as int) =~= w);
    }
}

} // verus!
