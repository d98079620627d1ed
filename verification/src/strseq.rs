use vstd::prelude::*;
use vstd::string::*;

verus! {

/// The segments of `s` between occurrences of `sep`, in order; a
/// trailing separator yields a trailing empty segment, and the empty
/// text yields one empty segment.
pub open spec fn split_sep(s: Seq<char>, sep: char) -> Seq<Seq<char>>
    decreases s.len(),
{
    if s.len() == 0 {
        seq![Seq::<char>::empty()]
    } else if s[0] == sep {
        seq![Seq::<char>::empty()] + split_sep(s.skip(1), sep)
    } else {
        let rest = split_sep(s.skip(1), sep);
        seq![seq![s[0]] + rest[0]] + rest.skip(1)
    }
}

/// The segments joined back with `sep` between neighbours.
pub open spec fn join_sep(v: Seq<Seq<char>>, sep: char) -> Seq<char>
    decreases v.len(),
{
    if v.len() <= 1 {
        if v.len() == 0 {
            Seq::<char>::empty()
        } else {
            v[0]
        }
    } else {
        v[0] + seq![sep] + join_sep(v.skip(1), sep)
    }
}

/// Splitting always yields at least one segment.
proof fn lemma_split_sep_len(s: Seq<char>, sep: char)
    ensures
        split_sep(s, sep).len() >= 1,
    decreases s.len(),
{
    if s.len() != 0 && s[0] != sep {
        lemma_split_sep_len(s.skip(1), sep);
    }
}

/// A separator-free text splits into exactly itself.
proof fn lemma_split_sep_free(s: Seq<char>, sep: char)
    requires
        !s.contains(sep),
    ensures
        split_sep(s, sep) =~= seq![s],
    decreases s.len(),
{
    if s.len() == 0 {
        assert(s =~= Seq::<char>::empty());
    } else {
        assert(s[0] != sep) by {
            if s[0] == sep {
                assert(s.contains(sep));
            }
        }
        assert(!s.skip(1).contains(sep)) by {
            if s.skip(1).contains(sep) {
                let i = choose|i: int| 0 <= i < s.skip(1).len() && s.skip(1)[i] == sep;
                assert(s[i + 1] == sep);
            }
        }
        lemma_split_sep_free(s.skip(1), sep);
        assert(split_sep(s.skip(1), sep) == seq![s.skip(1)]);
        assert(seq![s[0]] + s.skip(1) =~= s);
    }
}

/// Splitting a text of the form `a sep t`, with `a` separator-free,
/// yields `a` followed by the segments of `t`.
proof fn lemma_split_sep_step(a: Seq<char>, t: Seq<char>, sep: char)
    requires
        !a.contains(sep),
    ensures
        split_sep(a + seq![sep] + t, sep) =~= seq![a] + split_sep(t, sep),
    decreases a.len(),
{
    let s = a + seq![sep] + t;
    if a.len() == 0 {
        assert(a =~= Seq::<char>::empty());
        assert(s[0] == sep);
        assert(s.skip(1) =~= t);
        assert(seq![Seq::<char>::empty()] + split_sep(t, sep) =~= seq![a] + split_sep(t, sep));
    } else {
        assert(s[0] == a[0]);
        assert(s[0] != sep) by {
            if a[0] == sep {
                assert(a.contains(sep));
            }
        }
        assert(!a.skip(1).contains(sep)) by {
            if a.skip(1).contains(sep) {
                let i = choose|i: int| 0 <= i < a.skip(1).len() && a.skip(1)[i] == sep;
                assert(a[i + 1] == sep);
            }
        }
        lemma_split_sep_step(a.skip(1), t, sep);
        assert(s.skip(1) =~= a.skip(1) + seq![sep] + t);
        let rest = split_sep(s.skip(1), sep);
        assert(rest == seq![a.skip(1)] + split_sep(t, sep));
        lemma_split_sep_len(t, sep);
        assert(rest[0] == a.skip(1));
        assert(seq![s[0]] + rest[0] =~= a);
        assert(rest.skip(1) =~= split_sep(t, sep));
    }
}

/// Round trip of the separator scheme: joining separator-free segments
/// and splitting again gives the segments back.
pub proof fn lemma_split_join(v: Seq<Seq<char>>, sep: char)
    requires
        v.len() >= 1,
        forall|i: int| 0 <= i < v.len() ==> !v[i].contains(sep),
    ensures
        split_sep(join_sep(v, sep), sep) =~= v,
    decreases v.len(),
{
    if v.len() == 1 {
        lemma_split_sep_free(v[0], sep);
        assert(join_sep(v, sep) == v[0]);
    } else {
        lemma_split_join(v.skip(1), sep);
        lemma_split_sep_step(v[0], join_sep(v.skip(1), sep), sep);
        assert(seq![v[0]] + v.skip(1) =~= v);
    }
}

/// The reverse trip: the segments of any text join back to that text.
pub proof fn lemma_join_split(s: Seq<char>, sep: char)
    ensures
        join_sep(split_sep(s, sep), sep) =~= s,
    decreases s.len(),
{
    if s.len() == 0 {
    } else if s[0] == sep {
        lemma_join_split(s.skip(1), sep);
        lemma_split_sep_len(s.skip(1), sep);
        let w = seq![Seq::<char>::empty()] + split_sep(s.skip(1), sep);
        assert(w.len() >= 2);
        assert(w.skip(1) =~= split_sep(s.skip(1), sep));
        assert(join_sep(w, sep) =~= w[0] + seq![sep] + join_sep(w.skip(1), sep));
        assert(join_sep(w, sep) =~= seq![sep] + s.skip(1));
        assert(seq![sep] + s.skip(1) =~= s);
    } else {
        lemma_join_split(s.skip(1), sep);
        lemma_split_sep_len(s.skip(1), sep);
        let rest = split_sep(s.skip(1), sep);
        let w = seq![seq![s[0]] + rest[0]] + rest.skip(1);
        if rest.len() == 1 {
            assert(w.len() == 1);
            assert(join_sep(w, sep) == w[0]);
            assert(join_sep(rest, sep) == rest[0]);
            assert(w[0] =~= seq![s[0]] + s.skip(1));
            assert(seq![s[0]] + s.skip(1) =~= s);
        } else {
            assert(w.len() >= 2);
            assert(join_sep(w, sep) =~= w[0] + seq![sep] + join_sep(w.skip(1), sep));
            assert(w.skip(1) =~= rest.skip(1));
            assert(join_sep(rest, sep) =~= rest[0] + seq![sep] + join_sep(rest.skip(1), sep));
            assert(join_sep(w, sep) =~= seq![s[0]] + join_sep(rest, sep));
            assert(seq![s[0]] + s.skip(1) =~= s);
        }
    }
}

/// Joining a sequence extended by one more segment appends a separator
/// and the segment, once the sequence is nonempty.
proof fn lemma_join_sep_push(p: Seq<Seq<char>>, x: Seq<char>, sep: char)
    ensures
        p.len() == 0 ==> join_sep(p.push(x), sep) =~= x,
        p.len() >= 1 ==> join_sep(p.push(x), sep) =~= join_sep(p, sep) + seq![sep] + x,
    decreases p.len(),
{
    if p.len() == 0 {
        assert(p.push(x)[0] =~= x);
    } else if p.len() == 1 {
        let w = p.push(x);
        assert(w.len() == 2);
        assert(w.skip(1) =~= seq![x]);
        assert(join_sep(w.skip(1), sep) =~= x);
        assert(w[0] == p[0]);
        assert(join_sep(p, sep) == p[0]);
    } else {
        lemma_join_sep_push(p.skip(1), x, sep);
        let w = p.push(x);
        assert(w.skip(1) =~= p.skip(1).push(x));
        assert(join_sep(w, sep) =~= w[0] + seq![sep] + join_sep(p.skip(1).push(x), sep));
        assert(w[0] == p[0]);
    }
}

/// The code point of `c` after ASCII upper-casing; characters outside
/// `'a'..='z'` are unchanged.
pub open spec fn upper_code(c: char) -> int {
    let x = c as int;
    if 97 <= x && x <= 122 {
        x - 32
    } else {
        x
    }
}

/// Character sequences equal up to ASCII case.
pub open spec fn eq_ci(a: Seq<char>, b: Seq<char>) -> bool {
    a.len() == b.len() && forall|i: int| 0 <= i < a.len() ==> upper_code(a[i]) == upper_code(b[i])
}

/// True of `a` and `b` exactly when their ASCII upper-casings agree.
fn char_eq_ci(a: char, b: char) -> (r: bool)
    ensures
        r == (upper_code(a) == upper_code(b)),
{
    let x: u32 = a as u32;
    let y: u32 = b as u32;
    let xu: u32 = if 97 <= x && x <= 122 {
        x - 32
    } else {
        x
    };
    let yu: u32 = if 97 <= y && y <= 122 {
        y - 32
    } else {
        y
    };
    xu == yu
}

/// True of `a` and `b` exactly when they are equal up to ASCII case.
pub fn str_eq_ci(a: &str, b: &str) -> (r: bool)
    ensures
        r == eq_ci(a@, b@),
{
    let n = a.unicode_len();
    if n != b.unicode_len() {
        return false;
    }
    let mut i: usize = 0;
    while i < n
        invariant
            n == a@.len(),
            n == b@.len(),
            i <= n,
            forall|j: int| 0 <= j < i ==> upper_code(a@[j]) == upper_code(b@[j]),
        decreases n - i,
    {
        if !char_eq_ci(a.get_char(i), b.get_char(i)) {
            return false;
        }
        i += 1;
    }
    true
}

/// True of `a` and `b` exactly when they hold the same characters.
pub fn str_equal(a: &str, b: &str) -> (r: bool)
    ensures
        r == (a@ == b@),
{
    let n = a.unicode_len();
    if n != b.unicode_len() {
        return false;
    }
    let mut i: usize = 0;
    while i < n
        invariant
            n == a@.len(),
            n == b@.len(),
            i <= n,
            forall|j: int| 0 <= j < i ==> a@[j] == b@[j],
        decreases n - i,
    {
        if a.get_char(i) != b.get_char(i) {
            return false;
        }
        i += 1;
    }
    proof {
        assert(a@ =~= b@);
    }
    true
}

/// Splits a string on a separator character into owned segments.
pub fn split_string(s: &str, sep: char) -> (r: Vec<String>)
    ensures
        r.deep_view() == split_sep(s@, sep),
{
    let n = s.unicode_len();
    let mut r: Vec<String> = Vec::new();
    let mut seg_start: usize = 0;
    let mut i: usize = 0;
    proof {
        assert(s@.skip(0) =~= s@);
        assert(r.deep_view() =~= Seq::<Seq<char>>::empty());
    }
    while i < n
        invariant
            n == s@.len(),
            seg_start <= i <= n,
            forall|j: int| seg_start <= j < i ==> s@[j] != sep,
            split_sep(s@, sep) =~= r.deep_view() + split_sep(s@.skip(seg_start as int), sep),
        decreases n - i,
    {
        let c = s.get_char(i);
        if c == sep {
            let seg = s.substring_char(seg_start, i).to_owned();
            let ghost old_dv = r.deep_view();
            r.push(seg);
            proof {
                let a = s@.subrange(seg_start as int, i as int);
                assert(!a.contains(sep)) by {
                    if a.contains(sep) {
                        let k = choose|k: int| 0 <= k < a.len() && a[k] == sep;
                        assert(s@[seg_start + k] == sep);
                    }
                }
                lemma_split_sep_step(a, s@.skip(i as int + 1), sep);
                assert(s@.skip(seg_start as int) =~= a + seq![sep] + s@.skip(i as int + 1));
                assert(r.deep_view() =~~= old_dv + seq![a]);
            }
            seg_start = i + 1;
        }
        i += 1;
    }
    let seg = s.substring_char(seg_start, n).to_owned();
    let ghost old_dv = r.deep_view();
    r.push(seg);
    proof {
        let a = s@.subrange(seg_start as int, n as int);
        assert(!a.contains(sep)) by {
            if a.contains(sep) {
                let k = choose|k: int| 0 <= k < a.len() && a[k] == sep;
                assert(s@[seg_start + k] == sep);
            }
        }
        lemma_split_sep_free(a, sep);
        assert(s@.skip(seg_start as int) =~= a);
        assert(r.deep_view() =~~= old_dv + seq![a]);
    }
    r
}

/// Joins segments with the one-character separator `sep_str` between
/// neighbours.
pub fn join_strings(v: &Vec<String>, sep_str: &str) -> (r: String)
    requires
        v@.len() >= 1,
        sep_str@.len() == 1,
    ensures
        r@ == join_sep(v.deep_view(), sep_str@[0]),
{
    let ghost sep = sep_str@[0];
    let mut r: String = v[0].clone();
    let mut i: usize = 1;
    proof {
        assert(v.deep_view().take(1) =~= seq![v.deep_view()[0]]);
    }
    while i < v.len()
        invariant
            1 <= i <= v@.len(),
            sep_str@.len() == 1,
            sep == sep_str@[0],
            r@ == join_sep(v.deep_view().take(i as int), sep),
        decreases v@.len() - i,
    {
        proof {
            assert(sep_str@ =~= seq![sep]);
            lemma_join_sep_push(v.deep_view().take(i as int), v.deep_view()[i as int], sep);
            assert(v.deep_view().take(i as int + 1) =~= v.deep_view().take(i as int).push(
                v.deep_view()[i as int],
            ));
        }
        r.append(sep_str);
        r.append(v[i].as_str());
        i += 1;
    }
    proof {
        assert(v.deep_view().take(v.deep_view().len() as int) =~= v.deep_view());
    }
    r
}

} // verus!
