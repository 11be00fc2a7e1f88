//! Character-level helpers: the views of strings as `Seq<char>`, and the
//! splitting, trimming and comparing that the parser and the evaluator need.
use vstd::prelude::*;

verus! {

broadcast use vstd::string::group_string_axioms;

/// The characters with the Unicode White_Space property, which is what
/// `char::is_whitespace` tests.
pub open spec fn is_space(c: char) -> bool {
    let u = c as u32;
    ||| u == 0x20
    ||| (0x09 <= u && u <= 0x0D)
    ||| u == 0x85
    ||| u == 0xA0
    ||| u == 0x1680
    ||| (0x2000 <= u && u <= 0x200A)
    ||| u == 0x2028
    ||| u == 0x2029
    ||| u == 0x202F
    ||| u == 0x205F
    ||| u == 0x3000
}

pub fn is_space_char(c: char) -> (r: bool)
    ensures
        r == is_space(c),
{
    let u = c as u32;
    u == 0x20 || (0x09 <= u && u <= 0x0D) || u == 0x85 || u == 0xA0 || u == 0x1680 || (0x2000
        <= u && u <= 0x200A) || u == 0x2028 || u == 0x2029 || u == 0x202F || u == 0x205F || u
        == 0x3000
}

/// The characters of `s`, in order.
pub fn chars_of(s: &str) -> (r: Vec<char>)
    ensures
        r@ == s@,
{
    let mut out: Vec<char> = Vec::new();
    for c in it: s.chars()
        invariant
            it.seq() == s@,
            out@ == it.seq().take(it.index() as int),
    {
        out.push(c);
    }
    out
}

/// Relies on `String::push`: appends one character.
#[verifier::external_body]
fn push_char(s: &mut String, c: char)
    ensures
        final(s)@ == old(s)@.push(c),
{
    s.push(c);
}

/// The string whose characters are `cs`.
pub fn string_of(cs: &[char]) -> (r: String)
    ensures
        r@ == cs@,
{
    let mut out = String::new();
    let mut i: usize = 0;
    while i < cs.len()
        invariant
            i <= cs@.len(),
            out@ == cs@.take(i as int),
        decreases cs@.len() - i,
    {
        push_char(&mut out, cs[i]);
        i += 1;
        assert(cs@.take(i as int) == cs@.take(i - 1 as int).push(cs@[i - 1]));
    }
    assert(cs@.take(i as int) == cs@);
    out
}


/// The views of a sequence of character vectors.
pub open spec fn views(ps: Seq<Vec<char>>) -> Seq<Seq<char>> {
    ps.map_values(|p: Vec<char>| p@)
}

/// `r` with `c` put in front of its first piece.
pub open spec fn prepend_first(c: Seq<char>, r: Seq<Seq<char>>) -> Seq<Seq<char>> {
    r.update(0, c + r[0])
}

/// The pieces of `s` between the non-overlapping occurrences of `d`, found
/// from the left, as `str::split` gives them: there is always at least one.
pub open spec fn split_on(s: Seq<char>, d: Seq<char>) -> Seq<Seq<char>>
    decreases s.len(),
{
    if s.len() == 0 {
        seq![Seq::<char>::empty()]
    } else if 0 < d.len() <= s.len() && s.take(d.len() as int) == d {
        seq![Seq::<char>::empty()] + split_on(s.skip(d.len() as int), d)
    } else {
        prepend_first(seq![s[0]], split_on(s.skip(1), d))
    }
}

pub proof fn lemma_split_on_nonempty(s: Seq<char>, d: Seq<char>)
    ensures
        split_on(s, d).len() >= 1,
    decreases s.len(),
{
    if s.len() > 0 && !(0 < d.len() <= s.len() && s.take(d.len() as int) == d) {
        lemma_split_on_nonempty(s.skip(1), d);
    }
}

/// Whether `d` occurs in `s` at position `i`.
pub fn occurs_at(s: &Vec<char>, i: usize, d: &Vec<char>) -> (r: bool)
    requires
        i <= s@.len(),
    ensures
        r == (i + d@.len() <= s@.len() && s@.subrange(i as int, i + d@.len()) == d@),
{
    if d.len() > s.len() - i {
        return false;
    }
    let n = s.len();
    let mut k: usize = 0;
    while k < d.len()
        invariant
            n == s@.len(),
            i + d@.len() <= s@.len(),
            k <= d@.len(),
            s@.subrange(i as int, i + k) == d@.take(k as int),
        decreases d@.len() - k,
    {
        assert(i + k < s@.len());
        if s[i + k] != d[k] {
            assert(s@.subrange(i as int, i + d@.len())[k as int] != d@[k as int]);
            return false;
        }
        k += 1;
        assert(s@.subrange(i as int, i + k) == d@.take(k as int));
    }
    assert(d@.take(k as int) == d@);
    true
}

/// Splits `s` at each occurrence of `d`, as `str::split` does.
pub fn split_by(s: &Vec<char>, d: &Vec<char>) -> (r: Vec<Vec<char>>)
    requires
        d@.len() > 0,
    ensures
        views(r@) == split_on(s@, d@),
{
    let mut pieces: Vec<Vec<char>> = Vec::new();
    let mut cur: Vec<char> = Vec::new();
    let mut i: usize = 0;
    proof {
        lemma_split_on_nonempty(s@, d@);
        let r = split_on(s@, d@);
        assert(Seq::<char>::empty() + r[0] =~= r[0]);
        assert(views(pieces@) + prepend_first(cur@, r) =~= r);
        assert(s@.skip(0) == s@);
    }
    while i < s.len()
        invariant
            d@.len() > 0,
            i <= s@.len(),
            split_on(s@, d@) == views(pieces@) + prepend_first(cur@, split_on(s@.skip(i as int), d@)),
        decreases s@.len() - i,
    {
        let t = Ghost(s@.skip(i as int));
        if occurs_at(s, i, d) {
            assert(t@.take(d@.len() as int) == s@.subrange(i as int, i + d@.len()));
            assert(t@.skip(d@.len() as int) == s@.skip(i + d@.len()));
            let rest = Ghost(split_on(s@.skip(i + d@.len()), d@));
            proof {
                lemma_split_on_nonempty(s@.skip(i + d@.len()), d@);
                assert(prepend_first(cur@, seq![Seq::<char>::empty()] + rest@) == seq![cur@] + rest@);
                assert(Seq::<char>::empty() + rest@[0] =~= rest@[0]);
                assert(prepend_first(Seq::<char>::empty(), rest@) =~= rest@);
            }
            let ghost old_pieces = pieces@;
            pieces.push(cur);
            cur = Vec::new();
            assert(views(pieces@) =~= views(old_pieces).push(pieces@.last()@));
            assert(views(pieces@) + prepend_first(cur@, rest@) =~= views(old_pieces) + (seq![pieces@.last()@] + rest@));
            i = i + d.len();
            assert(split_on(s@, d@) == views(pieces@) + prepend_first(cur@, split_on(s@.skip(i as int), d@)));
        } else {
            assert(t@.skip(1) == s@.skip(i + 1));
            proof {
                if i + d@.len() <= s@.len() {
                    assert(t@.take(d@.len() as int) =~= s@.subrange(i as int, i + d@.len()));
                }
            }
            assert(t@[0] == s@[i as int]);
            assert(split_on(t@, d@) == prepend_first(seq![s@[i as int]], split_on(t@.skip(1), d@)));
            let rest = Ghost(split_on(s@.skip(i + 1), d@));
            proof {
                lemma_split_on_nonempty(s@.skip(i + 1), d@);
                assert(cur@ + (seq![s@[i as int]] + rest@[0]) =~= cur@.push(s@[i as int]) + rest@[0]);
                assert(prepend_first(cur@, prepend_first(seq![s@[i as int]], rest@)) =~= prepend_first(cur@.push(s@[i as int]), rest@));
            }
            let ghost old_cur = cur@;
            cur.push(s[i]);
            assert(cur@ == old_cur.push(s@[i as int]));
            i = i + 1;
            assert(split_on(s@, d@) == views(pieces@) + prepend_first(cur@, split_on(s@.skip(i as int), d@)));
        }
    }
    proof {
        assert(s@.skip(i as int) =~= Seq::<char>::empty());
    }
    let ghost old_pieces = pieces@;
    pieces.push(cur);
    assert(views(pieces@) =~= views(old_pieces).push(pieces@.last()@));
    assert(prepend_first(pieces@.last()@, seq![Seq::<char>::empty()]) =~= seq![pieces@.last()@]);
    pieces
}


/// `s` without its leading white space.
pub open spec fn trim_start(s: Seq<char>) -> Seq<char>
    decreases s.len(),
{
    if s.len() > 0 && is_space(s[0]) {
        trim_start(s.skip(1))
    } else {
        s
    }
}

/// `s` without its trailing white space.
pub open spec fn trim_end(s: Seq<char>) -> Seq<char>
    decreases s.len(),
{
    if s.len() > 0 && is_space(s.last()) {
        trim_end(s.drop_last())
    } else {
        s
    }
}

/// `s` without white space at either end, as `str::trim` gives it.
pub open spec fn trim(s: Seq<char>) -> Seq<char> {
    trim_end(trim_start(s))
}

pub fn trim_chars(s: &Vec<char>) -> (r: Vec<char>)
    ensures
        r@ == trim(s@),
{
    let mut a: usize = 0;
    assert(s@.skip(0) == s@);
    while a < s.len() && is_space_char(s[a])
        invariant
            a <= s@.len(),
            trim_start(s@) == trim_start(s@.skip(a as int)),
        decreases s@.len() - a,
    {
        assert(s@.skip(a as int).skip(1) == s@.skip(a + 1));
        a += 1;
    }
    assert(trim_start(s@) == s@.skip(a as int));
    let mut b: usize = s.len();
    assert(s@.skip(a as int) == s@.subrange(a as int, b as int));
    while b > a && is_space_char(s[b - 1])
        invariant
            a <= b <= s@.len(),
            trim(s@) == trim_end(s@.subrange(a as int, b as int)),
        decreases b,
    {
        assert(s@.subrange(a as int, b as int).drop_last() == s@.subrange(a as int, b - 1));
        b -= 1;
    }
    let mut out: Vec<char> = Vec::new();
    let mut k: usize = a;
    while k < b
        invariant
            a <= k <= b <= s@.len(),
            out@ == s@.subrange(a as int, k as int),
        decreases b - k,
    {
        out.push(s[k]);
        k += 1;
        assert(out@ =~= s@.subrange(a as int, k as int));
    }
    out
}

/// The pieces of `s` between single white-space characters.
pub open spec fn split_spaces(s: Seq<char>) -> Seq<Seq<char>>
    decreases s.len(),
{
    if s.len() == 0 {
        seq![Seq::<char>::empty()]
    } else if is_space(s[0]) {
        seq![Seq::<char>::empty()] + split_spaces(s.skip(1))
    } else {
        prepend_first(seq![s[0]], split_spaces(s.skip(1)))
    }
}

pub proof fn lemma_split_spaces_nonempty(s: Seq<char>)
    ensures
        split_spaces(s).len() >= 1,
    decreases s.len(),
{
    if s.len() > 0 && !is_space(s[0]) {
        lemma_split_spaces_nonempty(s.skip(1));
    }
}

pub open spec fn non_empty(w: Seq<char>) -> bool {
    w.len() > 0
}

/// The white-space separated words of `s`, as `str::split_whitespace` gives
/// them.
pub open spec fn words(s: Seq<char>) -> Seq<Seq<char>> {
    split_spaces(s).filter(|w: Seq<char>| non_empty(w))
}

proof fn lemma_filter_single(w: Seq<char>)
    ensures
        seq![w].filter(|w: Seq<char>| non_empty(w)) == (if w.len() > 0 {
            seq![w]
        } else {
            Seq::<Seq<char>>::empty()
        }),
{
    reveal_with_fuel(Seq::filter, 2);
    assert(seq![w].drop_last() =~= Seq::<Seq<char>>::empty());
    if w.len() > 0 {
        assert(Seq::<Seq<char>>::empty().push(w) =~= seq![w]);
    }
}

pub fn split_words(s: &Vec<char>) -> (r: Vec<Vec<char>>)
    ensures
        views(r@) == words(s@),
        forall|k: int| 0 <= k < r@.len() ==> #[trigger] r@[k]@.len() <= s@.len(),
{
    let ghost ne = |w: Seq<char>| non_empty(w);
    let mut pieces: Vec<Vec<char>> = Vec::new();
    let mut cur: Vec<char> = Vec::new();
    let mut i: usize = 0;
    proof {
        lemma_split_spaces_nonempty(s@);
        let r = split_spaces(s@);
        assert(Seq::<char>::empty() + r[0] =~= r[0]);
        assert(prepend_first(cur@, r) =~= r);
        assert(s@.skip(0) == s@);
    }
    while i < s.len()
        invariant
            i <= s@.len(),
            ne == (|w: Seq<char>| non_empty(w)),
            cur@.len() <= i,
            forall|k: int| 0 <= k < pieces@.len() ==> #[trigger] pieces@[k]@.len() <= s@.len(),
            words(s@) == views(pieces@) + prepend_first(cur@, split_spaces(s@.skip(i as int))).filter(ne),
        decreases s@.len() - i,
    {
        let t = Ghost(s@.skip(i as int));
        assert(t@.skip(1) == s@.skip(i + 1));
        assert(t@[0] == s@[i as int]);
        let rest = Ghost(split_spaces(s@.skip(i + 1)));
        proof {
            lemma_split_spaces_nonempty(s@.skip(i + 1));
        }
        if is_space_char(s[i]) {
            proof {
                assert(prepend_first(cur@, seq![Seq::<char>::empty()] + rest@) =~= seq![cur@] + rest@);
                assert(Seq::<char>::empty() + rest@[0] =~= rest@[0]);
                assert(prepend_first(Seq::<char>::empty(), rest@) =~= rest@);
                Seq::filter_distributes_over_add(seq![cur@], rest@, ne);
                lemma_filter_single(cur@);
            }
            if cur.len() > 0 {
                let ghost old_pieces = pieces@;
                pieces.push(cur);
                assert(views(pieces@) =~= views(old_pieces).push(pieces@.last()@));
                assert(views(pieces@) + rest@.filter(ne) =~= views(old_pieces) + (seq![pieces@.last()@] + rest@.filter(ne)));
            } else {
                assert(seq![cur@].filter(ne) + rest@.filter(ne) =~= rest@.filter(ne));
            }
            cur = Vec::new();
            i = i + 1;
            assert(prepend_first(cur@, rest@) =~= rest@);
        } else {
            proof {
                assert(cur@ + (seq![s@[i as int]] + rest@[0]) =~= cur@.push(s@[i as int]) + rest@[0]);
                assert(prepend_first(cur@, prepend_first(seq![s@[i as int]], rest@)) =~= prepend_first(cur@.push(s@[i as int]), rest@));
            }
            let ghost old_cur = cur@;
            cur.push(s[i]);
            assert(cur@ == old_cur.push(s@[i as int]));
            i = i + 1;
        }
    }
    proof {
        assert(s@.skip(i as int) =~= Seq::<char>::empty());
        assert(prepend_first(cur@, seq![Seq::<char>::empty()]) =~= seq![cur@]);
        lemma_filter_single(cur@);
    }
    if cur.len() > 0 {
        let ghost old_pieces = pieces@;
        pieces.push(cur);
        assert(views(pieces@) =~= views(old_pieces).push(pieces@.last()@));
    } else {
        assert(views(pieces@) + Seq::<Seq<char>>::empty() =~= views(pieces@));
    }
    pieces
}

/// The words of `ws`, each after the one before and a single space.
pub open spec fn join_spaced(ws: Seq<Seq<char>>) -> Seq<char>
    decreases ws.len(),
{
    if ws.len() == 0 {
        Seq::empty()
    } else if ws.len() == 1 {
        ws[0]
    } else {
        join_spaced(ws.drop_last()) + seq![' '] + ws.last()
    }
}

/// Joins the words of `ws` from position `from` on with single spaces.
pub fn join_from(ws: &Vec<Vec<char>>, from: usize) -> (r: Vec<char>)
    requires
        from <= ws@.len(),
    ensures
        r@ == join_spaced(views(ws@).skip(from as int)),
{
    let mut out: Vec<char> = Vec::new();
    let mut j: usize = from;
    while j < ws.len()
        invariant
            from <= j <= ws@.len(),
            out@ == join_spaced(views(ws@).subrange(from as int, j as int)),
        decreases ws@.len() - j,
    {
        let ghost before = views(ws@).subrange(from as int, j as int);
        let ghost after = views(ws@).subrange(from as int, j + 1);
        assert(after.drop_last() =~= before);
        assert(after.last() == ws@[j as int]@);
        if j > from {
            out.push(' ');
        }
        let w = &ws[j];
        let mut k: usize = 0;
        let ghost start = out@;
        while k < w.len()
            invariant
                k <= w@.len(),
                out@ == start + w@.take(k as int),
            decreases w@.len() - k,
        {
            out.push(w[k]);
            k += 1;
            assert(out@ =~= start + w@.take(k as int));
        }
        assert(w@.take(k as int) =~= w@);
        if j == from {
            assert(out@ =~= after[0]);
        }
        j += 1;
    }
    assert(views(ws@).subrange(from as int, j as int) =~= views(ws@).skip(from as int));
    out
}


/// The lower-case form of a text, as `str::to_lowercase` computes it.
pub uninterp spec fn lower_of(s: Seq<char>) -> Seq<char>;

/// Relies on `str::to_lowercase`: the result depends on the characters alone.
#[verifier::external_body]
fn lowercase(s: &str) -> (r: String)
    ensures
        r@ == lower_of(s@),
{
    s.to_lowercase()
}

pub fn lower_chars(cs: &Vec<char>) -> (r: Vec<char>)
    ensures
        r@ == lower_of(cs@),
{
    let s = string_of(cs.as_slice());
    let l = lowercase(s.as_str());
    chars_of(l.as_str())
}

pub fn same_chars(a: &Vec<char>, b: &Vec<char>) -> (r: bool)
    ensures
        r == (a@ == b@),
{
    if a.len() != b.len() {
        return false;
    }
    let mut i: usize = 0;
    while i < a.len()
        invariant
            a@.len() == b@.len(),
            i <= a@.len(),
            a@.take(i as int) == b@.take(i as int),
        decreases a@.len() - i,
    {
        if a[i] != b[i] {
            return false;
        }
        i += 1;
        assert(a@.take(i as int) =~= b@.take(i as int));
    }
    assert(a@.take(i as int) =~= a@);
    assert(b@.take(i as int) =~= b@);
    true
}

/// Whether `a` comes before `b` in code-point order, which is the order of
/// `str`'s comparison operators.
pub open spec fn text_lt(a: Seq<char>, b: Seq<char>) -> bool
    decreases a.len(),
{
    if a.len() == 0 {
        b.len() > 0
    } else if b.len() == 0 {
        false
    } else if a[0] == b[0] {
        text_lt(a.skip(1), b.skip(1))
    } else {
        (a[0] as u32) < (b[0] as u32)
    }
}

pub fn less_text(a: &Vec<char>, b: &Vec<char>) -> (r: bool)
    ensures
        r == text_lt(a@, b@),
{
    let mut i: usize = 0;
    assert(a@.skip(0) == a@ && b@.skip(0) == b@);
    while i < a.len() && i < b.len() && a[i] == b[i]
        invariant
            i <= a@.len(),
            i <= b@.len(),
            text_lt(a@, b@) == text_lt(a@.skip(i as int), b@.skip(i as int)),
        decreases a@.len() - i,
    {
        assert(a@.skip(i as int).skip(1) == a@.skip(i + 1));
        assert(b@.skip(i as int).skip(1) == b@.skip(i + 1));
        i += 1;
    }
    if i == a.len() {
        i < b.len()
    } else if i == b.len() {
        false
    } else {
        (a[i] as u32) < (b[i] as u32)
    }
}

/// Whether `n` occurs as a contiguous part of `h`.
pub open spec fn is_infix(n: Seq<char>, h: Seq<char>) -> bool {
    exists|i: int| 0 <= i && i + n.len() <= h.len() && #[trigger] h.subrange(i, i + n.len()) == n
}

pub fn has_infix(n: &Vec<char>, h: &Vec<char>) -> (r: bool)
    ensures
        r == is_infix(n@, h@),
{
    if n.len() > h.len() {
        return false;
    }
    if n.len() == 0 {
        assert(h@.subrange(0, 0 + n@.len() as int) =~= n@);
        return true;
    }
    let hl = h.len();
    let last = hl - n.len();
    let mut i: usize = 0;
    while i <= last
        invariant
            hl == h@.len(),
            n@.len() > 0,
            last == h@.len() - n@.len(),
            i <= last + 1,
            forall|j: int| 0 <= j < i ==> #[trigger] h@.subrange(j, j + n@.len()) != n@,
        decreases last + 1 - i,
    {
        if occurs_at(h, i, n) {
            return true;
        }
        i += 1;
    }
    false
}

} // verus!
