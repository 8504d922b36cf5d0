//! Character-level helpers on strings: identifiers and splitting at `/`.
use vstd::prelude::*;
use vstd::string::StringExecFns;

verus! {

/// The characters of a string, in order.
pub fn chars_of(s: &str) -> (r: Vec<char>)
    ensures
        r@ == s@,
{
    let mut out: Vec<char> = Vec::new();
    for c in it: s.chars()
        invariant
            out@ == it.seq().take(it.index() as int),
    {
        out.push(c);
    }
    out
}

} // verus!

verus! {

/// The characters an identifier may hold: `[A-Za-z0-9_]`.
pub open spec fn is_ident_char(c: char) -> bool {
    ('a' <= c && c <= 'z') || ('A' <= c && c <= 'Z') || ('0' <= c && c <= '9') || c == '_'
}

pub open spec fn is_identifier(s: Seq<char>) -> bool {
    forall|i: int| 0 <= i < s.len() ==> is_ident_char(#[trigger] s[i])
}

/// `s` holds a `/` at `k` and nowhere else.
pub open spec fn single_slash_at(s: Seq<char>, k: int) -> bool {
    &&& 0 <= k < s.len()
    &&& s[k] == '/'
    &&& forall|j: int| 0 <= j < s.len() && j != k ==> #[trigger] s[j] != '/'
}

pub open spec fn has_single_slash(s: Seq<char>) -> bool {
    exists|k: int| single_slash_at(s, k)
}

/// The part before the only `/` of `s`.
pub open spec fn slash_prefix(s: Seq<char>) -> Seq<char> {
    s.take(choose|k: int| single_slash_at(s, k))
}

/// The part after the only `/` of `s`.
pub open spec fn slash_suffix(s: Seq<char>) -> Seq<char> {
    s.skip((choose|k: int| single_slash_at(s, k)) + 1)
}

/// A qualified name `prefix/suffix` with exactly one `/` and two identifiers.
pub open spec fn is_qualified_name(s: Seq<char>) -> bool {
    has_single_slash(s) && is_identifier(slash_prefix(s)) && is_identifier(slash_suffix(s))
}

pub proof fn lemma_single_slash_unique(s: Seq<char>, k: int, l: int)
    requires
        single_slash_at(s, k),
        single_slash_at(s, l),
    ensures
        k == l,
{
}

pub fn is_ident_char_exec(c: char) -> (r: bool)
    ensures
        r == is_ident_char(c),
{
    ('a' <= c && c <= 'z') || ('A' <= c && c <= 'Z') || ('0' <= c && c <= '9') || c == '_'
}

/// Whether the characters `s[lo..hi]` form an identifier.
pub fn is_identifier_range(s: &Vec<char>, lo: usize, hi: usize) -> (r: bool)
    requires
        lo <= hi <= s@.len(),
    ensures
        r == is_identifier(s@.subrange(lo as int, hi as int)),
{
    let mut i = lo;
    while i < hi
        invariant
            lo <= i <= hi <= s@.len(),
            forall|j: int| lo <= j < i ==> is_ident_char(#[trigger] s@[j]),
        decreases hi - i,
    {
        if !is_ident_char_exec(s[i]) {
            assert(s@.subrange(lo as int, hi as int)[i - lo] == s@[i as int]);
            return false;
        }
        i = i + 1;
    }
    assert forall|j: int| 0 <= j < hi - lo implies is_ident_char(
        #[trigger] s@.subrange(lo as int, hi as int)[j],
    ) by {
        assert(s@.subrange(lo as int, hi as int)[j] == s@[lo + j]);
    }
    true
}

/// Whether a whole string is an identifier.
pub fn is_identifier_str(s: &str) -> (r: bool)
    ensures
        r == is_identifier(s@),
{
    let c = chars_of(s);
    let r = is_identifier_range(&c, 0, c.len());
    assert(c@.subrange(0, c@.len() as int) =~= c@);
    r
}

/// The position of the only `/` in `s`, if it holds exactly one.
pub fn find_single_slash(s: &Vec<char>) -> (r: Option<usize>)
    ensures
        r is Some ==> single_slash_at(s@, r->0 as int),
        r is None ==> !has_single_slash(s@),
{
    let mut found: Option<usize> = None;
    let mut i: usize = 0;
    while i < s.len()
        invariant
            0 <= i <= s@.len(),
            found is None ==> forall|j: int| 0 <= j < i ==> #[trigger] s@[j] != '/',
            found is Some ==> {
                &&& found->0 < i
                &&& s@[found->0 as int] == '/'
                &&& forall|j: int| 0 <= j < i && j != found->0 ==> #[trigger] s@[j] != '/'
            },
        decreases s@.len() - i,
    {
        if s[i] == '/' {
            if found.is_some() {
                assert(!has_single_slash(s@)) by {
                    if has_single_slash(s@) {
                        let k = choose|k: int| single_slash_at(s@, k);
                        assert(s@[found->0 as int] == '/');
                    }
                }
                return None;
            }
            found = Some(i);
        }
        i = i + 1;
    }
    if found.is_none() {
        assert(!has_single_slash(s@)) by {
            if has_single_slash(s@) {
                let k = choose|k: int| single_slash_at(s@, k);
                assert(s@[k] == '/');
            }
        }
    }
    found
}

/// Splits `s` at its only `/`, giving the position of that `/`, or `None` where
/// `s` holds no `/` or more than one.
pub fn split_qualified(s: &Vec<char>) -> (r: Option<usize>)
    ensures
        r is Some <==> has_single_slash(s@),
        r is Some ==> single_slash_at(s@, r->0 as int)
            && slash_prefix(s@) == s@.take(r->0 as int)
            && slash_suffix(s@) == s@.skip(r->0 + 1),
{
    let r = find_single_slash(s);
    if let Some(k) = r {
        proof {
            let c = choose|c: int| single_slash_at(s@, c);
            lemma_single_slash_unique(s@, c, k as int);
        }
    }
    r
}

} // verus!

verus! {

pub open spec fn digit_char(d: int) -> char {
    seq!['0', '1', '2', '3', '4', '5', '6', '7', '8', '9'][d]
}

/// The decimal digits of `n`, most significant first.
pub open spec fn decimal(n: nat) -> Seq<char>
    decreases n,
{
    if n < 10 {
        seq![digit_char(n as int)]
    } else {
        decimal(n / 10).push(digit_char((n % 10) as int))
    }
}

/// The path crumb that names the `i`-th step of a list.
pub open spec fn step_crumb(i: nat) -> Seq<char> {
    "step #"@ + decimal(i)
}

/// Relies on std's `Display` for `usize` (through `to_string`): the decimal digits
/// of `i`, with no sign and no leading zeros.
#[verifier::external_body]
fn decimal_text(i: usize) -> (r: String)
    ensures
        r@ == decimal(i as nat),
{
    i.to_string()
}

/// The path crumb `step #i`.
pub fn step_crumb_exec(i: usize) -> (r: String)
    ensures
        r@ == step_crumb(i as nat),
{
    let digits = decimal_text(i);
    let prefix = <String as StringExecFns>::from_str("step #");
    let r = prefix.concat(digits.as_str());
    proof {
        reveal_strlit("step #");
    }
    r
}

/// Relies on std's `FromIterator<&char>` for `String`: the string holds the
/// characters in order.
#[verifier::external_body]
fn collect_chars(c: &Vec<char>) -> (r: String)
    ensures
        r@ == c@,
{
    c.iter().collect()
}

/// The string of the characters `c[lo..hi]`.
pub fn string_from_chars(c: &Vec<char>, lo: usize, hi: usize) -> (r: String)
    requires
        lo <= hi <= c@.len(),
    ensures
        r@ == c@.subrange(lo as int, hi as int),
{
    let mut part: Vec<char> = Vec::new();
    let mut i = lo;
    while i < hi
        invariant
            lo <= i <= hi <= c@.len(),
            part@ == c@.subrange(lo as int, i as int),
        decreases hi - i,
    {
        part.push(c[i]);
        proof {
            assert(c@.subrange(lo as int, i + 1) =~= c@.subrange(lo as int, i as int).push(c@[i as int]));
        }
        i = i + 1;
    }
    collect_chars(&part)
}

/// Whether `a` equals the characters `b[lo..hi]`.
pub fn chars_eq_range(a: &Vec<char>, b: &Vec<char>, lo: usize, hi: usize) -> (r: bool)
    requires
        lo <= hi <= b@.len(),
    ensures
        r == (a@ == b@.subrange(lo as int, hi as int)),
{
    if a.len() != hi - lo {
        return false;
    }
    let mut i: usize = 0;
    while i < a.len()
        invariant
            a@.len() == hi - lo,
            lo <= hi <= b@.len(),
            0 <= i <= a@.len(),
            forall|j: int| 0 <= j < i ==> a@[j] == b@[lo + j],
        decreases a@.len() - i,
    {
        if a[i] != b[lo + i] {
            assert(a@[i as int] != b@.subrange(lo as int, hi as int)[i as int]);
            return false;
        }
        i = i + 1;
    }
    assert(a@ =~= b@.subrange(lo as int, hi as int));
    true
}

} // verus!

verus! {

/// Lexicographic order on character strings, by code point.
pub open spec fn lex_lt(a: Seq<char>, b: Seq<char>) -> bool
    decreases a.len(),
{
    if a.len() == 0 {
        b.len() > 0
    } else if b.len() == 0 {
        false
    } else if a[0] != b[0] {
        a[0] < b[0]
    } else {
        lex_lt(a.drop_first(), b.drop_first())
    }
}

pub proof fn lemma_lex_irreflexive(a: Seq<char>)
    ensures
        !lex_lt(a, a),
    decreases a.len(),
{
    if a.len() > 0 {
        lemma_lex_irreflexive(a.drop_first());
    }
}

pub proof fn lemma_lex_total(a: Seq<char>, b: Seq<char>)
    ensures
        a == b || lex_lt(a, b) || lex_lt(b, a),
    decreases a.len(),
{
    if a.len() > 0 && b.len() > 0 {
        if a[0] == b[0] {
            lemma_lex_total(a.drop_first(), b.drop_first());
            if a.drop_first() == b.drop_first() {
                assert(a =~= seq![a[0]] + a.drop_first());
                assert(b =~= seq![b[0]] + b.drop_first());
            }
        }
    } else if a.len() == 0 && b.len() == 0 {
        assert(a =~= b);
    }
}

pub proof fn lemma_lex_asymmetric(a: Seq<char>, b: Seq<char>)
    ensures
        !(lex_lt(a, b) && lex_lt(b, a)),
    decreases a.len(),
{
    if a.len() > 0 && b.len() > 0 && a[0] == b[0] {
        lemma_lex_asymmetric(a.drop_first(), b.drop_first());
    }
}

pub proof fn lemma_lex_transitive(a: Seq<char>, b: Seq<char>, c: Seq<char>)
    requires
        lex_lt(a, b),
        lex_lt(b, c),
    ensures
        lex_lt(a, c),
    decreases a.len(),
{
    if a.len() > 0 && b.len() > 0 && c.len() > 0 && a[0] == b[0] && b[0] == c[0] {
        lemma_lex_transitive(a.drop_first(), b.drop_first(), c.drop_first());
    }
}

/// Whether `a` sorts strictly before `b`.
pub fn lex_less(a: &Vec<char>, b: &Vec<char>) -> (r: bool)
    ensures
        r == lex_lt(a@, b@),
{
    let mut i: usize = 0;
    assert(a@.skip(0) =~= a@ && b@.skip(0) =~= b@);
    while i < a.len() && i < b.len()
        invariant
            0 <= i <= a@.len(),
            i <= b@.len(),
            forall|k: int| 0 <= k < i ==> a@[k] == b@[k],
            lex_lt(a@, b@) == lex_lt(a@.skip(i as int), b@.skip(i as int)),
        decreases a@.len() - i,
    {
        if a[i] != b[i] {
            proof {
                assert(a@.skip(i as int)[0] == a@[i as int]);
                assert(b@.skip(i as int)[0] == b@[i as int]);
            }
            return a[i] < b[i];
        }
        proof {
            assert(a@.skip(i as int).drop_first() =~= a@.skip(i + 1));
            assert(b@.skip(i as int).drop_first() =~= b@.skip(i + 1));
        }
        i = i + 1;
    }
    i < b.len()
}

} // verus!

verus! {

/// The positions of `names`, ordered so that the names increase strictly.
pub fn sort_by_name(names: &Vec<Vec<char>>) -> (r: Vec<usize>)
    requires
        forall|i: int, j: int| 0 <= i < j < names@.len() ==> names@[i]@ != names@[j]@,
    ensures
        r@.len() == names@.len(),
        r@.no_duplicates(),
        forall|k: int| 0 <= k < r@.len() ==> (#[trigger] r@[k]) < names@.len(),
        forall|a: int, b: int| 0 <= a < b < r@.len() ==> lex_lt(names@[r@[a] as int]@, names@[r@[b] as int]@),
        forall|i: int| 0 <= i < names@.len() ==> #[trigger] r@.contains(i as usize),
{
    let mut list: Vec<usize> = Vec::new();
    let mut x: usize = 0;
    while x < names.len()
        invariant
            0 <= x <= names@.len(),
            forall|i: int, j: int| 0 <= i < j < names@.len() ==> names@[i]@ != names@[j]@,
            list@.len() == x,
            forall|k: int| 0 <= k < list@.len() ==> (#[trigger] list@[k]) < x,
            list@.no_duplicates(),
            forall|a: int, b: int| 0 <= a < b < list@.len() ==> lex_lt(names@[list@[a] as int]@, names@[list@[b] as int]@),
            forall|i: int| 0 <= i < x ==> #[trigger] list@.contains(i as usize),
        decreases names@.len() - x,
    {
        let mut p: usize = 0;
        while p < list.len() && !lex_less(&names[x], &names[list[p]])
            invariant
                0 <= p <= list@.len(),
                x < names@.len(),
                forall|k: int| 0 <= k < list@.len() ==> (#[trigger] list@[k]) < x,
                forall|q: int| 0 <= q < p ==> !lex_lt(names@[x as int]@, names@[#[trigger] list@[q] as int]@),
            decreases list@.len() - p,
        {
            p = p + 1;
        }
        let ghost old_list = list@;
        proof {
            assert forall|q: int| 0 <= q < p implies lex_lt(names@[#[trigger] old_list[q] as int]@, names@[x as int]@) by {
                lemma_lex_total(names@[x as int]@, names@[old_list[q] as int]@);
                assert(old_list[q] < x);
            }
            assert forall|q: int| p <= q < old_list.len() implies lex_lt(names@[x as int]@, names@[#[trigger] old_list[q] as int]@) by {
                if q > p {
                    lemma_lex_transitive(names@[x as int]@, names@[old_list[p as int] as int]@, names@[old_list[q] as int]@);
                }
            }
        }
        list.insert(p, x);
        proof {
            assert(list@ == old_list.insert(p as int, x));
            assert forall|a: int, b: int| 0 <= a < b < list@.len() implies lex_lt(names@[list@[a] as int]@, names@[list@[b] as int]@) by {
                if a < p && b < p {
                    assert(list@[a] == old_list[a] && list@[b] == old_list[b]);
                } else if a < p && b == p {
                    assert(list@[a] == old_list[a]);
                } else if a < p {
                    assert(list@[a] == old_list[a] && list@[b] == old_list[b - 1]);
                    lemma_lex_transitive(names@[old_list[a] as int]@, names@[x as int]@, names@[old_list[b - 1] as int]@);
                } else if a == p {
                    assert(list@[b] == old_list[b - 1]);
                } else {
                    assert(list@[a] == old_list[a - 1] && list@[b] == old_list[b - 1]);
                }
            }
            assert forall|i: int| 0 <= i < x + 1 implies #[trigger] list@.contains(i as usize) by {
                if i < x {
                    assert(old_list.contains(i as usize));
                    let k = choose|k: int| 0 <= k < old_list.len() && old_list[k] == i as usize;
                    if k < p {
                        assert(list@[k] == i as usize);
                    } else {
                        assert(list@[k + 1] == i as usize);
                    }
                } else {
                    assert(list@[p as int] == x);
                }
            }
            assert forall|k: int| 0 <= k < list@.len() implies (#[trigger] list@[k]) < x + 1 by {
                if k < p {
                    assert(list@[k] == old_list[k]);
                } else if k > p {
                    assert(list@[k] == old_list[k - 1]);
                }
            }
            assert(list@.no_duplicates()) by {
                assert forall|a: int, b: int| 0 <= a < list@.len() && 0 <= b < list@.len() && a != b implies list@[a] != list@[b] by {
                    if a < b {
                        lemma_lex_irreflexive(names@[list@[a] as int]@);
                    } else {
                        lemma_lex_irreflexive(names@[list@[b] as int]@);
                    }
                }
            }
        }
        x = x + 1;
    }
    list
}

} // verus!

verus! {

/// Strings joined with a separator between each two.
pub open spec fn joined(parts: Seq<Seq<char>>, sep: Seq<char>) -> Seq<char>
    decreases parts.len(),
{
    if parts.len() == 0 {
        Seq::empty()
    } else if parts.len() == 1 {
        parts[0]
    } else {
        joined(parts.drop_last(), sep) + sep + parts.last()
    }
}

/// The parts in order, with ` → ` between each two.
pub fn join_with_arrow(parts: &Vec<String>) -> (r: String)
    ensures
        r@ == joined(parts@.map_values(|s: String| s@), " → "@),
{
    let ghost v = parts@.map_values(|s: String| s@);
    let mut out = String::new();
    let mut k: usize = 0;
    while k < parts.len()
        invariant
            0 <= k <= parts@.len(),
            v == parts@.map_values(|s: String| s@),
            out@ == joined(v.take(k as int), " → "@),
        decreases parts@.len() - k,
    {
        proof {
            assert(v.take(k + 1).drop_last() =~= v.take(k as int));
            assert(v.take(k + 1).last() == parts@[k as int]@);
        }
        if k > 0 {
            out = out.concat(" → ");
        }
        out = out.concat(parts[k].as_str());
        proof {
            if k == 0 {
                assert(v.take(1)[0] == parts@[0]@);
                assert(out@ =~= joined(v.take(1), " → "@));
            }
        }
        k = k + 1;
    }
    assert(v.take(k as int) =~= v);
    out
}

} // verus!
