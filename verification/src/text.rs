//! Text primitives shared by the request parsers: splitting on a separator
//! the way `str::split`, `str::splitn(2, ..)` and `str::split_whitespace` do,
//! and comparing text.
use vstd::prelude::*;
use vstd::string::*;

use crate::codec::push_char;

verus! {

broadcast use vstd::string::group_string_axioms;

/// True when `sep` occurs in `s` starting at position `i`.
pub open spec fn occurs_at(s: Seq<char>, sep: Seq<char>, i: int) -> bool {
    &&& 0 <= i
    &&& i + sep.len() <= s.len()
    &&& s.subrange(i, i + sep.len()) == sep
}

/// `pieces` with `head` put in front of its first piece.
pub open spec fn join_front(head: Seq<char>, pieces: Seq<Seq<char>>) -> Seq<Seq<char>> {
    pieces.update(0, head + pieces[0])
}

/// The pieces of `s` between the occurrences of `sep`, the occurrences being
/// found from the left without overlapping (what `str::split` yields for a
/// non-empty separator).
pub open spec fn split_on(s: Seq<char>, sep: Seq<char>) -> Seq<Seq<char>>
    decreases s.len(),
{
    if s.len() == 0 {
        seq![Seq::empty()]
    } else if sep.len() > 0 && occurs_at(s, sep, 0) {
        seq![Seq::empty()] + split_on(s.skip(sep.len() as int), sep)
    } else {
        join_front(seq![s[0]], split_on(s.drop_first(), sep))
    }
}

/// The text before and after the first occurrence of `sep` in `s`, or `None`
/// when `sep` does not occur (what `str::splitn(2, sep)` yields as two pieces
/// or as one).
pub open spec fn split_first(s: Seq<char>, sep: Seq<char>) -> Option<(Seq<char>, Seq<char>)>
    decreases s.len(),
{
    if s.len() == 0 {
        None
    } else if sep.len() > 0 && occurs_at(s, sep, 0) {
        Some((Seq::empty(), s.skip(sep.len() as int)))
    } else {
        match split_first(s.drop_first(), sep) {
            Some((a, b)) => Some((seq![s[0]] + a, b)),
            None => None,
        }
    }
}

/// `r` with `pre` put in front of its first part.
pub open spec fn prefix_first(pre: Seq<char>, r: Option<(Seq<char>, Seq<char>)>) -> Option<
    (Seq<char>, Seq<char>),
> {
    match r {
        Some((a, b)) => Some((pre + a, b)),
        None => None,
    }
}

/// The characters with the Unicode `White_Space` property (`char::is_whitespace`).
pub open spec fn is_white(c: char) -> bool {
    ||| '\u{9}' <= c <= '\u{d}'
    ||| c == ' '
    ||| c == '\u{85}'
    ||| c == '\u{a0}'
    ||| c == '\u{1680}'
    ||| '\u{2000}' <= c <= '\u{200a}'
    ||| c == '\u{2028}'
    ||| c == '\u{2029}'
    ||| c == '\u{202f}'
    ||| c == '\u{205f}'
    ||| c == '\u{3000}'
}

/// The pieces of `s` between whitespace characters, empty pieces included.
pub open spec fn split_white(s: Seq<char>) -> Seq<Seq<char>>
    decreases s.len(),
{
    if s.len() == 0 {
        seq![Seq::empty()]
    } else if is_white(s[0]) {
        seq![Seq::empty()] + split_white(s.drop_first())
    } else {
        join_front(seq![s[0]], split_white(s.drop_first()))
    }
}

/// `pieces` without its empty pieces.
pub open spec fn drop_empty(pieces: Seq<Seq<char>>) -> Seq<Seq<char>>
    decreases pieces.len(),
{
    if pieces.len() == 0 {
        Seq::empty()
    } else if pieces.last().len() == 0 {
        drop_empty(pieces.drop_last())
    } else {
        drop_empty(pieces.drop_last()).push(pieces.last())
    }
}

/// The words of `s` (what `str::split_whitespace` yields).
pub open spec fn words(s: Seq<char>) -> Seq<Seq<char>> {
    drop_empty(split_white(s))
}

pub proof fn lemma_split_on_nonempty(s: Seq<char>, sep: Seq<char>)
    ensures
        split_on(s, sep).len() >= 1,
    decreases s.len(),
{
    if s.len() == 0 {
    } else if sep.len() > 0 && occurs_at(s, sep, 0) {
        lemma_split_on_nonempty(s.skip(sep.len() as int), sep);
    } else {
        lemma_split_on_nonempty(s.drop_first(), sep);
    }
}

pub proof fn lemma_split_white_nonempty(s: Seq<char>)
    ensures
        split_white(s).len() >= 1,
    decreases s.len(),
{
    if s.len() > 0 {
        lemma_split_white_nonempty(s.drop_first());
    }
}

proof fn lemma_join_front_join_front(a: Seq<char>, b: Seq<char>, ps: Seq<Seq<char>>)
    requires
        ps.len() >= 1,
    ensures
        join_front(a, join_front(b, ps)) == join_front(a + b, ps),
{
    assert(a + (b + ps[0]) =~= (a + b) + ps[0]);
    assert(join_front(a, join_front(b, ps)) =~= join_front(a + b, ps));
}

proof fn lemma_join_front_empty(ps: Seq<Seq<char>>)
    requires
        ps.len() >= 1,
    ensures
        join_front(Seq::empty(), ps) == ps,
{
    assert(Seq::<char>::empty() + ps[0] =~= ps[0]);
    assert(join_front(Seq::empty(), ps) =~= ps);
}

/// `pieces` put back together with `sep` between each two of them.
pub open spec fn joined(pieces: Seq<Seq<char>>, sep: Seq<char>) -> Seq<char>
    decreases pieces.len(),
{
    if pieces.len() == 0 {
        Seq::empty()
    } else if pieces.len() == 1 {
        pieces[0]
    } else {
        pieces[0] + sep + joined(pieces.drop_first(), sep)
    }
}

proof fn lemma_joined_join_front(head: Seq<char>, ps: Seq<Seq<char>>, sep: Seq<char>)
    requires
        ps.len() >= 1,
    ensures
        joined(join_front(head, ps), sep) == head + joined(ps, sep),
{
    let jf = join_front(head, ps);
    if ps.len() == 1 {
        assert(jf[0] == head + ps[0]);
    } else {
        assert(jf.drop_first() =~= ps.drop_first());
        assert((head + ps[0]) + sep + joined(ps.drop_first(), sep) =~= head + (ps[0] + sep
            + joined(ps.drop_first(), sep)));
    }
}

/// Splitting loses nothing but the separators: the pieces of `s`, put back
/// together with `sep` between them, give `s` again.
pub proof fn law_split_rejoin(s: Seq<char>, sep: Seq<char>)
    requires
        sep.len() > 0,
    ensures
        joined(split_on(s, sep), sep) == s,
    decreases s.len(),
{
    if s.len() == 0 {
    } else if occurs_at(s, sep, 0) {
        let rest = s.skip(sep.len() as int);
        law_split_rejoin(rest, sep);
        lemma_split_on_nonempty(rest, sep);
        let ps = seq![Seq::<char>::empty()] + split_on(rest, sep);
        assert(ps.drop_first() =~= split_on(rest, sep));
        assert(Seq::<char>::empty() + sep + rest =~= s);
    } else {
        law_split_rejoin(s.drop_first(), sep);
        lemma_split_on_nonempty(s.drop_first(), sep);
        lemma_joined_join_front(seq![s[0]], split_on(s.drop_first(), sep), sep);
        assert(seq![s[0]] + s.drop_first() =~= s);
    }
}

/// No piece of a split on a one-character separator contains that character.
pub proof fn law_split_pieces_free(s: Seq<char>, c: char)
    ensures
        forall|i: int, j: int|
            0 <= i < split_on(s, seq![c]).len() && 0 <= j < split_on(s, seq![c])[i].len()
                ==> split_on(s, seq![c])[i][j] != c,
    decreases s.len(),
{
    let sep = seq![c];
    if s.len() == 0 {
    } else if occurs_at(s, sep, 0) {
        let rest = s.skip(1);
        law_split_pieces_free(rest, c);
        let ps = split_on(s, sep);
        assert forall|i: int, j: int|
            0 <= i < ps.len() && 0 <= j < ps[i].len() implies ps[i][j] != c by {
            if i > 0 {
                assert(ps[i] == split_on(rest, sep)[i - 1]);
            }
        }
    } else {
        let rest = s.drop_first();
        law_split_pieces_free(rest, c);
        lemma_split_on_nonempty(rest, sep);
        let ps = split_on(s, sep);
        assert(s.subrange(0, 1) =~= seq![s[0]]);
        assert(s[0] != c);
        assert forall|i: int, j: int|
            0 <= i < ps.len() && 0 <= j < ps[i].len() implies ps[i][j] != c by {
            if i > 0 {
                assert(ps[i] == split_on(rest, sep)[i]);
            } else {
                assert(ps[0] == seq![s[0]] + split_on(rest, sep)[0]);
                if j > 0 {
                    assert(ps[0][j] == split_on(rest, sep)[0][j - 1]);
                }
            }
        }
    }
}

proof fn lemma_flatten_join_front(head: Seq<char>, ps: Seq<Seq<char>>)
    requires
        ps.len() >= 1,
    ensures
        join_front(head, ps).flatten() == head + ps.flatten(),
{
    let jf = join_front(head, ps);
    assert(jf.drop_first() =~= ps.drop_first());
    assert((head + ps[0]) + ps.drop_first().flatten() =~= head + (ps[0]
        + ps.drop_first().flatten()));
}

proof fn lemma_split_white_flatten(s: Seq<char>)
    ensures
        split_white(s).flatten() == s.filter(|c: char| !is_white(c)),
    decreases s.len(),
{
    let p = |c: char| !is_white(c);
    if s.len() == 0 {
        split_white(s).lemma_flatten_singleton();
    } else {
        let rest = s.drop_first();
        lemma_split_white_flatten(rest);
        lemma_split_white_nonempty(rest);
        assert(s =~= seq![s[0]] + rest);
        rest.lemma_filter_prepend(s[0], p);
        if is_white(s[0]) {
            let ps = seq![Seq::<char>::empty()] + split_white(rest);
            assert(ps.drop_first() =~= split_white(rest));
            assert(Seq::<char>::empty() + split_white(rest).flatten() =~= split_white(
                rest,
            ).flatten());
            assert(Seq::<char>::empty() + rest.filter(p) =~= rest.filter(p));
        } else {
            lemma_flatten_join_front(seq![s[0]], split_white(rest));
        }
    }
}

proof fn lemma_drop_empty_words(ps: Seq<Seq<char>>)
    ensures
        drop_empty(ps).flatten() == ps.flatten(),
        forall|i: int| 0 <= i < drop_empty(ps).len() ==> (#[trigger] drop_empty(ps)[i]).len() > 0,
        (forall|i: int, j: int| 0 <= i < ps.len() && 0 <= j < ps[i].len() ==> !is_white(ps[i][j]))
            ==> (forall|i: int, j: int|
            0 <= i < drop_empty(ps).len() && 0 <= j < drop_empty(ps)[i].len() ==> !is_white(
                drop_empty(ps)[i][j],
            )),
    decreases ps.len(),
{
    broadcast use Seq::lemma_flatten_push;

    if ps.len() > 0 {
        let init = ps.drop_last();
        lemma_drop_empty_words(init);
        assert(ps =~= init.push(ps.last()));
        if ps.last().len() == 0 {
            assert(init.flatten() + ps.last() =~= init.flatten());
        }
        if forall|i: int, j: int| 0 <= i < ps.len() && 0 <= j < ps[i].len() ==> !is_white(ps[i][j]) {
            assert forall|i: int, j: int| 0 <= i < init.len() && 0 <= j < init[i].len() implies !is_white(
                init[i][j],
            ) by {
                assert(init[i] == ps[i]);
            }
        }
    }
}

proof fn lemma_split_white_pieces(s: Seq<char>)
    ensures
        forall|i: int, j: int|
            0 <= i < split_white(s).len() && 0 <= j < split_white(s)[i].len() ==> !is_white(
                split_white(s)[i][j],
            ),
    decreases s.len(),
{
    if s.len() > 0 {
        let rest = s.drop_first();
        lemma_split_white_pieces(rest);
        lemma_split_white_nonempty(rest);
        let ps = split_white(s);
        assert forall|i: int, j: int|
            0 <= i < ps.len() && 0 <= j < ps[i].len() implies !is_white(ps[i][j]) by {
            if is_white(s[0]) {
                if i > 0 {
                    assert(ps[i] == split_white(rest)[i - 1]);
                }
            } else if i > 0 {
                assert(ps[i] == split_white(rest)[i]);
            } else {
                assert(ps[0] == seq![s[0]] + split_white(rest)[0]);
                if j > 0 {
                    assert(ps[0][j] == split_white(rest)[0][j - 1]);
                }
            }
        }
    }
}

/// The words of a text are its non-empty runs of non-whitespace: no word is
/// empty, none holds a whitespace character, and together, in order, they
/// are the text with its whitespace taken out.
pub proof fn law_words(s: Seq<char>)
    ensures
        forall|i: int| 0 <= i < words(s).len() ==> (#[trigger] words(s)[i]).len() > 0,
        forall|i: int, j: int|
            0 <= i < words(s).len() && 0 <= j < words(s)[i].len() ==> !is_white(words(s)[i][j]),
        words(s).flatten() == s.filter(|c: char| !is_white(c)),
{
    lemma_split_white_flatten(s);
    lemma_split_white_pieces(s);
    lemma_drop_empty_words(split_white(s));
}

/// The characters of `s`.
pub fn chars_of(s: &str) -> (r: Vec<char>)
    ensures
        r@ == s@,
{
    let mut r: Vec<char> = Vec::new();
    for c in it: s.chars()
        invariant
            r@ == it.seq().take(it.index() as int),
    {
        r.push(c);
    }
    r
}

/// Whether `sep` occurs in `cs` at position `i`.
fn occurs_at_exec(cs: &Vec<char>, sep: &Vec<char>, i: usize) -> (r: bool)
    requires
        i <= cs@.len(),
    ensures
        r == occurs_at(cs@, sep@, i as int),
{
    let n = cs.len();
    let k = sep.len();
    if k > n - i {
        return false;
    }
    let mut j: usize = 0;
    while j < k
        invariant
            k == sep@.len(),
            n == cs@.len(),
            i + k <= n,
            j <= k,
            forall|t: int| 0 <= t < j ==> cs@[i + t] == sep@[t],
        decreases k - j,
    {
        if cs[i + j] != sep[j] {
            assert(cs@.subrange(i as int, i + k)[j as int] != sep@[j as int]);
            return false;
        }
        j = j + 1;
    }
    assert(cs@.subrange(i as int, i + k) =~= sep@);
    true
}

/// `s` cut at every occurrence of `sep` (`str::split`).
pub fn split_text(s: &str, sep: &str) -> (pieces: Vec<String>)
    requires
        sep@.len() > 0,
    ensures
        pieces.deep_view() == split_on(s@, sep@),
{
    let cs = chars_of(s);
    let ps = chars_of(sep);
    let n = cs.len();
    let k = ps.len();
    let mut pieces: Vec<String> = Vec::new();
    let mut start: usize = 0;
    let mut i: usize = 0;
    proof {
        assert(s@.skip(0) =~= s@);
        assert(s@.subrange(0, 0) =~= Seq::<char>::empty());
        lemma_split_on_nonempty(s@, sep@);
        lemma_join_front_empty(split_on(s@, sep@));
        assert(pieces.deep_view() =~= Seq::<Seq<char>>::empty());
        assert(split_on(s@, sep@) =~= pieces.deep_view() + join_front(
            s@.subrange(0, 0),
            split_on(s@.skip(0), sep@),
        ));
    }
    while i < n
        invariant
            cs@ == s@,
            ps@ == sep@,
            n == s@.len(),
            k == sep@.len(),
            k > 0,
            start <= i <= n,
            split_on(s@, sep@) == pieces.deep_view() + join_front(
                s@.subrange(start as int, i as int),
                split_on(s@.skip(i as int), sep@),
            ),
        decreases n - i,
    {
        let ghost rest = s@.skip(i as int);
        let ghost cur = s@.subrange(start as int, i as int);
        let ghost old_pieces = pieces.deep_view();
        if occurs_at_exec(&cs, &ps, i) {
            proof {
                assert(rest.subrange(0, k as int) =~= s@.subrange(i as int, i + k));
                assert(occurs_at(rest, sep@, 0));
                assert(rest.skip(k as int) =~= s@.skip(i + k));
                lemma_split_on_nonempty(s@.skip(i + k), sep@);
                lemma_join_front_empty(split_on(s@.skip(i + k), sep@));
                assert(cur + Seq::<char>::empty() =~= cur);
            }
            let piece = s.substring_char(start, i).to_owned();
            pieces.push(piece);
            i = i + k;
            start = i;
            proof {
                let x = split_on(s@.skip(i as int), sep@);
                assert(s@.subrange(start as int, i as int) =~= Seq::<char>::empty());
                assert(pieces.deep_view() =~= old_pieces.push(cur));
                assert(join_front(cur, seq![Seq::<char>::empty()] + x) =~= seq![cur] + x);
                assert(split_on(s@, sep@) =~= pieces.deep_view() + join_front(
                    s@.subrange(start as int, i as int),
                    x,
                ));
            }
        } else {
            proof {
                assert(!occurs_at(rest, sep@, 0)) by {
                    if occurs_at(rest, sep@, 0) {
                        assert(rest.subrange(0, k as int) =~= s@.subrange(i as int, i + k));
                    }
                }
                assert(rest.drop_first() =~= s@.skip(i + 1));
                lemma_split_on_nonempty(s@.skip(i + 1), sep@);
                lemma_join_front_join_front(cur, seq![s@[i as int]], split_on(s@.skip(i + 1), sep@));
                assert(cur + seq![s@[i as int]] =~= s@.subrange(start as int, i + 1));
            }
            i = i + 1;
        }
    }
    let piece = s.substring_char(start, n).to_owned();
    let ghost before = pieces.deep_view();
    pieces.push(piece);
    proof {
        assert(s@.skip(n as int) =~= Seq::<char>::empty());
        let cur = s@.subrange(start as int, n as int);
        assert(cur + Seq::<char>::empty() =~= cur);
        assert(join_front(cur, seq![Seq::<char>::empty()]) =~= seq![cur]);
        assert(pieces.deep_view() =~= before.push(cur));
    }
    pieces
}

/// The text before and after the first occurrence of `sep` in `s`
/// (`str::splitn(2, sep)`), or `None` when `sep` does not occur.
pub fn split_once_text(s: &str, sep: &str) -> (r: Option<(String, String)>)
    requires
        sep@.len() > 0,
    ensures
        match r {
            Some((a, b)) => split_first(s@, sep@) == Some((a@, b@)),
            None => split_first(s@, sep@) is None,
        },
{
    let cs = chars_of(s);
    let ps = chars_of(sep);
    let n = cs.len();
    let k = ps.len();
    let mut i: usize = 0;
    proof {
        assert(s@.skip(0) =~= s@);
        assert(Seq::<char>::empty() + Seq::<char>::empty() =~= Seq::<char>::empty());
        match split_first(s@, sep@) {
            Some((a, b)) => {
                assert(Seq::<char>::empty() + a =~= a);
            },
            None => {},
        }
    }
    while i < n
        invariant
            cs@ == s@,
            ps@ == sep@,
            n == s@.len(),
            k == sep@.len(),
            k > 0,
            i <= n,
            split_first(s@, sep@) == prefix_first(
                s@.subrange(0, i as int),
                split_first(s@.skip(i as int), sep@),
            ),
        decreases n - i,
    {
        let ghost rest = s@.skip(i as int);
        let ghost pre = s@.subrange(0, i as int);
        if occurs_at_exec(&cs, &ps, i) {
            proof {
                assert(rest.subrange(0, k as int) =~= s@.subrange(i as int, i + k));
                assert(occurs_at(rest, sep@, 0));
                assert(rest.skip(k as int) =~= s@.skip(i + k));
                assert(pre + Seq::<char>::empty() =~= pre);
            }
            let a = s.substring_char(0, i).to_owned();
            let b = s.substring_char(i + k, n).to_owned();
            proof {
                assert(s@.subrange((i + k) as int, n as int) =~= s@.skip(i + k));
            }
            return Some((a, b));
        } else {
            proof {
                assert(!occurs_at(rest, sep@, 0)) by {
                    if occurs_at(rest, sep@, 0) {
                        assert(rest.subrange(0, k as int) =~= s@.subrange(i as int, i + k));
                    }
                }
                assert(rest.drop_first() =~= s@.skip(i + 1));
                assert(pre + seq![s@[i as int]] =~= s@.subrange(0, i + 1));
                match split_first(s@.skip(i + 1), sep@) {
                    Some((a, b)) => {
                        assert(pre + (seq![s@[i as int]] + a) =~= (pre + seq![s@[i as int]]) + a);
                    },
                    None => {},
                }
            }
            i = i + 1;
        }
    }
    proof {
        assert(s@.skip(n as int) =~= Seq::<char>::empty());
    }
    None
}

/// Whether `c` is whitespace (`char::is_whitespace`).
pub fn is_white_char(c: char) -> (r: bool)
    ensures
        r == is_white(c),
{
    ('\u{9}' <= c && c <= '\u{d}') || c == ' ' || c == '\u{85}' || c == '\u{a0}' || c
        == '\u{1680}' || ('\u{2000}' <= c && c <= '\u{200a}') || c == '\u{2028}' || c
        == '\u{2029}' || c == '\u{202f}' || c == '\u{205f}' || c == '\u{3000}'
}

/// `s` cut at every whitespace character, empty pieces included.
fn split_white_text(s: &str) -> (pieces: Vec<String>)
    ensures
        pieces.deep_view() == split_white(s@),
{
    let cs = chars_of(s);
    let n = cs.len();
    let mut pieces: Vec<String> = Vec::new();
    let mut start: usize = 0;
    let mut i: usize = 0;
    proof {
        assert(s@.skip(0) =~= s@);
        assert(s@.subrange(0, 0) =~= Seq::<char>::empty());
        lemma_split_white_nonempty(s@);
        lemma_join_front_empty(split_white(s@));
        assert(pieces.deep_view() =~= Seq::<Seq<char>>::empty());
        assert(split_white(s@) =~= pieces.deep_view() + join_front(
            s@.subrange(0, 0),
            split_white(s@.skip(0)),
        ));
    }
    while i < n
        invariant
            cs@ == s@,
            n == s@.len(),
            start <= i <= n,
            split_white(s@) == pieces.deep_view() + join_front(
                s@.subrange(start as int, i as int),
                split_white(s@.skip(i as int)),
            ),
        decreases n - i,
    {
        let ghost rest = s@.skip(i as int);
        let ghost cur = s@.subrange(start as int, i as int);
        let ghost old_pieces = pieces.deep_view();
        proof {
            assert(rest.drop_first() =~= s@.skip(i + 1));
            lemma_split_white_nonempty(s@.skip(i + 1));
        }
        if is_white_char(cs[i]) {
            proof {
                lemma_join_front_empty(split_white(s@.skip(i + 1)));
                assert(cur + Seq::<char>::empty() =~= cur);
            }
            let piece = s.substring_char(start, i).to_owned();
            pieces.push(piece);
            i = i + 1;
            start = i;
            proof {
                let x = split_white(s@.skip(i as int));
                assert(s@.subrange(start as int, i as int) =~= Seq::<char>::empty());
                assert(pieces.deep_view() =~= old_pieces.push(cur));
                assert(join_front(cur, seq![Seq::<char>::empty()] + x) =~= seq![cur] + x);
                assert(split_white(s@) =~= pieces.deep_view() + join_front(
                    s@.subrange(start as int, i as int),
                    x,
                ));
            }
        } else {
            proof {
                lemma_join_front_join_front(cur, seq![s@[i as int]], split_white(s@.skip(i + 1)));
                assert(cur + seq![s@[i as int]] =~= s@.subrange(start as int, i + 1));
            }
            i = i + 1;
        }
    }
    let piece = s.substring_char(start, n).to_owned();
    let ghost before = pieces.deep_view();
    pieces.push(piece);
    proof {
        assert(s@.skip(n as int) =~= Seq::<char>::empty());
        let cur = s@.subrange(start as int, n as int);
        assert(cur + Seq::<char>::empty() =~= cur);
        assert(join_front(cur, seq![Seq::<char>::empty()]) =~= seq![cur]);
        assert(pieces.deep_view() =~= before.push(cur));
    }
    pieces
}

/// The words of `s` (`str::split_whitespace`).
pub fn words_of(s: &str) -> (r: Vec<String>)
    ensures
        r.deep_view() == words(s@),
{
    let pieces = split_white_text(s);
    let mut r: Vec<String> = Vec::new();
    let mut i: usize = 0;
    proof {
        assert(pieces.deep_view().take(0) =~= Seq::<Seq<char>>::empty());
        assert(r.deep_view() =~= Seq::<Seq<char>>::empty());
    }
    while i < pieces.len()
        invariant
            i <= pieces@.len(),
            r.deep_view() == drop_empty(pieces.deep_view().take(i as int)),
        decreases pieces@.len() - i,
    {
        let ghost before = r.deep_view();
        proof {
            assert(pieces.deep_view().take(i + 1).drop_last() =~= pieces.deep_view().take(
                i as int,
            ));
            assert(pieces.deep_view().take(i + 1).last() == pieces@[i as int]@);
        }
        if !pieces[i].as_str().is_empty() {
            r.push(pieces[i].clone());
            proof {
                assert(r.deep_view() =~= before.push(pieces@[i as int]@));
            }
        }
        i = i + 1;
    }
    proof {
        assert(pieces.deep_view().take(pieces@.len() as int) =~= pieces.deep_view());
    }
    r
}

/// The value of the last pair named `key` (what a map built from `pairs` in
/// order holds for `key`), or `None` when no pair is named `key`.
pub open spec fn last_value(pairs: Seq<(Seq<char>, Seq<char>)>, key: Seq<char>) -> Option<Seq<char>>
    decreases pairs.len(),
{
    if pairs.len() == 0 {
        None
    } else if pairs.last().0 == key {
        Some(pairs.last().1)
    } else {
        last_value(pairs.drop_last(), key)
    }
}

/// Whether `(key, value)` is the last pair of `pairs` named `key`.
pub open spec fn is_last_pair(
    pairs: Seq<(Seq<char>, Seq<char>)>,
    key: Seq<char>,
    value: Seq<char>,
) -> bool {
    exists|i: int|
        0 <= i < pairs.len() && #[trigger] pairs[i] == (key, value) && forall|j: int|
            i < j < pairs.len() ==> (#[trigger] pairs[j]).0 != key
}

/// Whether no pair of `pairs` is named `key`.
pub open spec fn lacks_key(pairs: Seq<(Seq<char>, Seq<char>)>, key: Seq<char>) -> bool {
    forall|i: int| 0 <= i < pairs.len() ==> (#[trigger] pairs[i]).0 != key
}

/// Looking up `key` finds the value of the last pair named `key`, and finds
/// nothing exactly when no pair is named `key`.
pub proof fn law_last_value(pairs: Seq<(Seq<char>, Seq<char>)>, key: Seq<char>)
    ensures
        last_value(pairs, key) is None <==> lacks_key(pairs, key),
        last_value(pairs, key) matches Some(v) ==> is_last_pair(pairs, key, v),
    decreases pairs.len(),
{
    if pairs.len() > 0 {
        let init = pairs.drop_last();
        law_last_value(init, key);
        let n = pairs.len() - 1;
        if pairs.last().0 == key {
            assert(pairs[n] == (key, pairs.last().1));
            assert(!lacks_key(pairs, key));
        } else {
            if lacks_key(init, key) {
                assert forall|i: int| 0 <= i < pairs.len() implies (#[trigger] pairs[i]).0
                    != key by {
                    if i < n {
                        assert(pairs[i] == init[i]);
                    }
                }
            } else {
                let k = choose|i: int| 0 <= i < init.len() && (#[trigger] init[i]).0 == key;
                assert(pairs[k] == init[k]);
            }
            match last_value(init, key) {
                Some(v) => {
                    let i = choose|i: int|
                        0 <= i < init.len() && #[trigger] init[i] == (key, v) && forall|j: int|
                            i < j < init.len() ==> (#[trigger] init[j]).0 != key;
                    assert(pairs[i] == init[i]);
                    assert forall|j: int| i < j < pairs.len() implies (#[trigger] pairs[j]).0
                        != key by {
                        if j < n {
                            assert(pairs[j] == init[j]);
                        }
                    }
                },
                None => {},
            }
        }
    }
}

/// The value of the last pair named `key`, or `None` when there is none.
pub fn last_value_of(pairs: &Vec<(String, String)>, key: &str) -> (r: Option<String>)
    ensures
        match r {
            Some(v) => last_value(pairs.deep_view(), key@) == Some(v@),
            None => last_value(pairs.deep_view(), key@) is None,
        },
{
    let mut i: usize = pairs.len();
    proof {
        assert(pairs.deep_view().take(i as int) =~= pairs.deep_view());
    }
    while i > 0
        invariant
            i <= pairs@.len(),
            last_value(pairs.deep_view(), key@) == last_value(
                pairs.deep_view().take(i as int),
                key@,
            ),
        decreases i,
    {
        let ghost prefix = pairs.deep_view().take(i as int);
        proof {
            assert(prefix.drop_last() =~= pairs.deep_view().take(i - 1));
            assert(prefix.last() == pairs.deep_view()[i - 1]);
        }
        if same_text(pairs[i - 1].0.as_str(), key) {
            return Some(pairs[i - 1].1.clone());
        }
        i = i - 1;
    }
    None
}

/// The character of the decimal digit `d`.
pub open spec fn digit_char(d: nat) -> char {
    if d == 0 {
        '0'
    } else if d == 1 {
        '1'
    } else if d == 2 {
        '2'
    } else if d == 3 {
        '3'
    } else if d == 4 {
        '4'
    } else if d == 5 {
        '5'
    } else if d == 6 {
        '6'
    } else if d == 7 {
        '7'
    } else if d == 8 {
        '8'
    } else {
        '9'
    }
}

/// `n` written in decimal, without leading zeros (`format!("{}", n)`).
pub open spec fn decimal(n: nat) -> Seq<char>
    decreases n,
{
    if n < 10 {
        seq![digit_char(n)]
    } else {
        decimal(n / 10).push(digit_char(n % 10))
    }
}

/// `n` in decimal, with zeros in front up to `width` characters
/// (`format!("{:0width$}", n)` for a non-negative `n`).
pub open spec fn padded(n: nat, width: nat) -> Seq<char> {
    let fill: nat = if width > decimal(n).len() {
        (width - decimal(n).len()) as nat
    } else {
        0
    };
    Seq::new(fill, |i: int| '0') + decimal(n)
}

/// `n` in decimal with zero padding up to `width` characters, the sign
/// counted in the width (`format!("{:0width$}", n)`).
pub open spec fn padded_signed(n: int, width: nat) -> Seq<char> {
    if n >= 0 {
        padded(n as nat, width)
    } else {
        seq!['-'] + padded((-n) as nat, if width > 0 {
            (width - 1) as nat
        } else {
            0
        })
    }
}

fn digit_exec(d: u64) -> (c: char)
    requires
        d < 10,
    ensures
        c == digit_char(d as nat),
{
    if d == 0 {
        '0'
    } else if d == 1 {
        '1'
    } else if d == 2 {
        '2'
    } else if d == 3 {
        '3'
    } else if d == 4 {
        '4'
    } else if d == 5 {
        '5'
    } else if d == 6 {
        '6'
    } else if d == 7 {
        '7'
    } else if d == 8 {
        '8'
    } else {
        '9'
    }
}

/// The text made of `cs`.
pub fn text_of_chars(cs: &Vec<char>) -> (r: String)
    ensures
        r@ == cs@,
{
    let mut r = String::new();
    let mut i: usize = 0;
    while i < cs.len()
        invariant
            i <= cs@.len(),
            r@ == cs@.take(i as int),
        decreases cs@.len() - i,
    {
        push_char(&mut r, cs[i]);
        proof {
            assert(cs@.take(i + 1) =~= cs@.take(i as int).push(cs@[i as int]));
        }
        i = i + 1;
    }
    proof {
        assert(cs@.take(cs@.len() as int) =~= cs@);
    }
    r
}

/// The decimal digits of `n`.
fn decimal_chars(n: u64) -> (r: Vec<char>)
    ensures
        r@ == decimal(n as nat),
{
    let mut q = n;
    let mut digits: Vec<char> = Vec::new();
    proof {
        assert(decimal(n as nat) =~= decimal(q as nat) + digits@);
    }
    while q >= 10
        invariant
            q >= 1 || n == 0,
            decimal(n as nat) == decimal(q as nat) + digits@,
        decreases q,
    {
        let c = digit_exec(q % 10);
        let ghost old_digits = digits@;
        digits.insert(0, c);
        proof {
            assert(decimal(q as nat) == decimal((q / 10) as nat).push(digit_char((q % 10) as nat)));
            assert(digits@ =~= seq![c] + old_digits);
            assert(decimal((q / 10) as nat).push(c) + old_digits =~= decimal((q / 10) as nat) + (
            seq![c] + old_digits));
        }
        q = q / 10;
    }
    let c = digit_exec(q);
    let ghost old_digits = digits@;
    digits.insert(0, c);
    proof {
        assert(digits@ =~= seq![c] + old_digits);
    }
    digits
}

/// `n` written in decimal (`format!("{}", n)`).
pub fn decimal_text(n: u64) -> (r: String)
    ensures
        r@ == decimal(n as nat),
{
    text_of_chars(&decimal_chars(n))
}

/// `n` in decimal with zero padding up to `width` characters
/// (`format!("{:0width$}", n)`).
pub fn padded_text(n: u64, width: usize) -> (r: String)
    ensures
        r@ == padded(n as nat, width as nat),
{
    let digits = decimal_chars(n);
    let mut r = String::new();
    let mut k: usize = 0;
    let fill: usize = if width > digits.len() {
        width - digits.len()
    } else {
        0
    };
    while k < fill
        invariant
            k <= fill,
            r@ == Seq::new(k as nat, |i: int| '0'),
        decreases fill - k,
    {
        push_char(&mut r, '0');
        proof {
            assert(r@ =~= Seq::new((k + 1) as nat, |i: int| '0'));
        }
        k = k + 1;
    }
    let ds = text_of_chars(&digits);
    r.append(ds.as_str());
    r
}

/// `n` in decimal with zero padding up to `width` characters, the sign
/// counted in the width (`format!("{:0width$}", n)`).
pub fn padded_signed_text(n: i64, width: usize) -> (r: String)
    ensures
        r@ == padded_signed(n as int, width as nat),
{
    if n >= 0 {
        padded_text(n as u64, width)
    } else {
        let magnitude: u64 = if n == i64::MIN {
            9223372036854775808u64
        } else {
            (-n) as u64
        };
        let inner_width: usize = if width > 0 {
            width - 1
        } else {
            0
        };
        let mut r = String::new();
        push_char(&mut r, '-');
        let rest = padded_text(magnitude, inner_width);
        r.append(rest.as_str());
        proof {
            assert(magnitude as int == -(n as int));
            assert(r@ =~= seq!['-'] + padded((-n) as nat, inner_width as nat));
        }
        r
    }
}

/// Whether `a` and `b` hold the same text.
pub fn same_text(a: &str, b: &str) -> (r: bool)
    ensures
        r == (a@ == b@),
{
    a.to_owned() == b.to_owned()
}

} // verus!
