//! Character-level helpers: lexicographic order on strings and the dotted
//! rendering of paths.
//!
//! The rewrite engine breaks ties between equally long equation sides by the
//! lexicographic order of their printed forms, so that order is defined here
//! once, over sequences of characters.

use vstd::prelude::*;

verus! {

/// Strict lexicographic order on character sequences: compare position by
/// position (by Unicode scalar value); a proper prefix precedes its
/// extensions.
pub open spec fn lex_lt(a: Seq<char>, b: Seq<char>) -> bool
    decreases a.len(),
{
    if b.len() == 0 {
        false
    } else if a.len() == 0 {
        true
    } else if a[0] != b[0] {
        (a[0] as u32) < (b[0] as u32)
    } else {
        lex_lt(a.skip(1), b.skip(1))
    }
}

/// When the first `i` characters agree and position `i` differs, the order
/// is decided at position `i`.
proof fn lemma_lex_lt_at(a: Seq<char>, b: Seq<char>, i: int)
    requires
        0 <= i < a.len(),
        i < b.len(),
        forall|j: int| 0 <= j < i ==> a[j] == b[j],
        a[i] != b[i],
    ensures
        lex_lt(a, b) == ((a[i] as u32) < (b[i] as u32)),
    decreases i,
{
    if i > 0 {
        assert(a[0] == b[0]);
        assert(a.skip(1)[i - 1] == a[i]);
        assert(b.skip(1)[i - 1] == b[i]);
        assert(forall|j: int| 0 <= j < i - 1 ==> a.skip(1)[j] == b.skip(1)[j]);
        lemma_lex_lt_at(a.skip(1), b.skip(1), i - 1);
    }
}

/// When one string is a prefix of the other, the shorter one comes first.
proof fn lemma_lex_lt_prefix(a: Seq<char>, b: Seq<char>, i: int)
    requires
        0 <= i <= a.len(),
        i <= b.len(),
        i == a.len() || i == b.len(),
        forall|j: int| 0 <= j < i ==> a[j] == b[j],
    ensures
        lex_lt(a, b) == (a.len() < b.len()),
    decreases i,
{
    if i > 0 {
        assert(a[0] == b[0]);
        assert(forall|j: int| 0 <= j < i - 1 ==> a.skip(1)[j] == b.skip(1)[j]);
        lemma_lex_lt_prefix(a.skip(1), b.skip(1), i - 1);
    }
}

/// The order is asymmetric.
pub proof fn lemma_lex_lt_asym(a: Seq<char>, b: Seq<char>)
    requires
        lex_lt(a, b),
    ensures
        !lex_lt(b, a),
    decreases a.len(),
{
    if a.len() > 0 && b.len() > 0 && a[0] == b[0] {
        lemma_lex_lt_asym(a.skip(1), b.skip(1));
    }
}

/// Distinct characters have distinct scalar values.
proof fn lemma_char_cast_distinct(a: char, b: char)
    requires
        a != b,
    ensures
        (a as u32) != (b as u32),
{
}

/// Distinct strings compare one way or the other.
pub proof fn lemma_lex_lt_connected(a: Seq<char>, b: Seq<char>)
    requires
        a != b,
    ensures
        lex_lt(a, b) || lex_lt(b, a),
    decreases a.len(),
{
    if a.len() == 0 && b.len() == 0 {
        assert(a =~= b);
    } else if b.len() == 0 {
    } else if a.len() == 0 {
    } else if a[0] != b[0] {
        lemma_char_cast_distinct(a[0], b[0]);
    } else {
        assert(a.skip(1) != b.skip(1)) by {
            if a.skip(1) == b.skip(1) {
                assert(a.skip(1).len() == a.len() - 1);
                assert(b.skip(1).len() == b.len() - 1);
                assert forall|i: int| 0 <= i < a.len() implies a[i] == b[i] by {
                    if i > 0 {
                        assert(a[i] == a.skip(1)[i - 1]);
                        assert(b[i] == b.skip(1)[i - 1]);
                    }
                }
                assert(a =~= b);
            }
        }
        lemma_lex_lt_connected(a.skip(1), b.skip(1));
    }
}

/// The order is transitive.
pub proof fn lemma_lex_lt_trans(a: Seq<char>, b: Seq<char>, c: Seq<char>)
    requires
        lex_lt(a, b),
        lex_lt(b, c),
    ensures
        lex_lt(a, c),
    decreases a.len(),
{
    if a.len() == 0 {
    } else {
        assert(b.len() > 0 && c.len() > 0);
        if a[0] == b[0] && b[0] == c[0] {
            lemma_lex_lt_trans(a.skip(1), b.skip(1), c.skip(1));
        } else {
            assert((a[0] as u32) <= (b[0] as u32) && (b[0] as u32) <= (c[0] as u32));
            assert((a[0] as u32) < (c[0] as u32));
            assert(a[0] != c[0]);
        }
    }
}

/// Decides `lex_lt(a@, b@)` executably.
pub fn str_lt(a: &str, b: &str) -> (r: bool)
    ensures
        r == lex_lt(a@, b@),
{
    let la = a.unicode_len();
    let lb = b.unicode_len();
    let mut i: usize = 0;
    while i < la && i < lb
        invariant
            la == a@.len(),
            lb == b@.len(),
            0 <= i <= la,
            i <= lb,
            forall|j: int| 0 <= j < i ==> a@[j] == b@[j],
        decreases la - i,
    {
        let ca = a.get_char(i);
        let cb = b.get_char(i);
        if ca != cb {
            proof {
                lemma_lex_lt_at(a@, b@, i as int);
            }
            return (ca as u32) < (cb as u32);
        }
        i += 1;
    }
    proof {
        lemma_lex_lt_prefix(a@, b@, i as int);
    }
    la < lb
}

/// Decides whether two string slices spell the same characters.
pub fn str_eq(a: &str, b: &str) -> (r: bool)
    ensures
        r == (a@ == b@),
{
    let oa = a.to_owned();
    let ob = b.to_owned();
    oa == ob
}

/// The sequence of character views of a sequence of strings.
pub open spec fn names_view(v: Seq<std::string::String>) -> Seq<Seq<char>> {
    v.map_values(|s: std::string::String| s@)
}

/// Copies a vector of strings, preserving its view exactly.
pub fn copy_strings(v: &Vec<std::string::String>) -> (r: Vec<std::string::String>)
    ensures
        r@ == v@,
{
    let mut r: Vec<std::string::String> = Vec::new();
    let mut i: usize = 0;
    while i < v.len()
        invariant
            0 <= i <= v@.len(),
            r@ == v@.subrange(0, i as int),
        decreases v@.len() - i,
    {
        r.push(v[i].clone());
        proof {
            assert(r@ =~= v@.subrange(0, i + 1));
        }
        i += 1;
    }
    proof {
        assert(r@ =~= v@);
    }
    r
}

/// Decides whether two string vectors spell the same names.
pub fn str_vec_eq(a: &Vec<std::string::String>, b: &Vec<std::string::String>) -> (r: bool)
    ensures
        r == (names_view(a@) == names_view(b@)),
{
    if a.len() != b.len() {
        assert(names_view(a@).len() != names_view(b@).len());
        return false;
    }
    let mut i: usize = 0;
    while i < a.len()
        invariant
            a@.len() == b@.len(),
            0 <= i <= a@.len(),
            forall|j: int| 0 <= j < i ==> a@[j]@ == b@[j]@,
        decreases a@.len() - i,
    {
        if !(a[i] == b[i]) {
            assert(names_view(a@)[i as int] != names_view(b@)[i as int]);
            return false;
        }
        i += 1;
    }
    proof {
        assert(names_view(a@) =~= names_view(b@));
    }
    true
}

/// Renders a number in decimal, for building readable rule names.
pub fn dec_string(n: usize) -> std::string::String {
    let mut digits: Vec<&str> = Vec::new();
    let mut m = n;
    let mut guard: usize = 0;
    while m > 0 && guard < 20
        decreases 20 - guard,
    {
        let d = m % 10;
        let s: &str = if d == 0 {
            "0"
        } else if d == 1 {
            "1"
        } else if d == 2 {
            "2"
        } else if d == 3 {
            "3"
        } else if d == 4 {
            "4"
        } else if d == 5 {
            "5"
        } else if d == 6 {
            "6"
        } else if d == 7 {
            "7"
        } else if d == 8 {
            "8"
        } else {
            "9"
        };
        digits.push(s);
        m = m / 10;
        guard += 1;
    }
    let mut out = std::string::String::new();
    if digits.len() == 0 {
        out.append("0");
        return out;
    }
    let mut i: usize = digits.len();
    while i > 0
        invariant
            i <= digits@.len(),
        decreases i,
    {
        i -= 1;
        out.append(digits[i]);
    }
    out
}

/// The rendering of a dotted identifier chain: `start.e1.e2...`, or the
/// bare start when the chain is empty.
pub open spec fn spec_dotted(start: Seq<char>, edges: Seq<Seq<char>>) -> Seq<char>
    decreases edges.len(),
{
    if edges.len() == 0 {
        start
    } else {
        spec_dotted(start + seq!['.'] + edges[0], edges.skip(1))
    }
}

/// Appends `.edge` for each edge name onto `start`.
pub fn render_dotted(start: &str, edges: &Vec<std::string::String>) -> (r: std::string::String)
    ensures
        r@ == spec_dotted(start@, names_view(edges@)),
{
    let ghost names = names_view(edges@);
    let mut out = start.to_owned();
    let mut i: usize = 0;
    proof {
        assert(names.skip(0) =~= names);
    }
    while i < edges.len()
        invariant
            0 <= i <= edges@.len(),
            names == names_view(edges@),
            spec_dotted(out@, names.skip(i as int)) == spec_dotted(start@, names),
        decreases edges@.len() - i,
    {
        let ghost before = out@;
        out.append(".");
        out.append(edges[i].as_str());
        proof {
            reveal_strlit(".");
            assert("."@ =~= seq!['.']);
            assert(names[i as int] == edges@[i as int]@);
            assert(names.skip(i as int)[0] == names[i as int]);
            assert(out@ =~= before + seq!['.'] + names.skip(i as int)[0]);
            assert(names.skip(i as int).skip(1) =~= names.skip(i as int + 1));
            assert(spec_dotted(before, names.skip(i as int)) == spec_dotted(
                out@,
                names.skip(i as int + 1),
            ));
        }
        i += 1;
    }
    proof {
        assert(names.skip(i as int) =~= Seq::<Seq<char>>::empty());
        assert(spec_dotted(out@, Seq::<Seq<char>>::empty()) == out@);
    }
    out
}

} // verus!
