//! The fields of a sign-in body such as
//! `{"username": "name", "password": "secret"}`: quotes, braces and spaces are
//! dropped, the rest is cut into `key:value` items at each comma.
use vstd::prelude::*;
use vstd::string::*;

use crate::codec::push_char;
use crate::text::{chars_of, split_on, split_text};

verus! {

broadcast use vstd::string::group_string_axioms;

/// Whether `c` is dropped before a body is cut into fields.
pub open spec fn is_dropped(c: char) -> bool {
    c == '"' || c == '{' || c == '}' || c == ' '
}

/// `s` without the dropped characters.
pub open spec fn kept(s: Seq<char>) -> Seq<char>
    decreases s.len(),
{
    if s.len() == 0 {
        Seq::empty()
    } else if is_dropped(s.last()) {
        kept(s.drop_last())
    } else {
        kept(s.drop_last()).push(s.last())
    }
}

/// Before a body is cut, exactly the quotes, braces and spaces are removed:
/// every other character, upper-case letters included, is kept in order.
pub proof fn law_kept_drops_only_quotes_braces_spaces(s: Seq<char>)
    ensures
        kept(s) == s.filter(|c: char| !(c == '"' || c == '{' || c == '}' || c == ' ')),
    decreases s.len(),
{
    reveal(Seq::filter);
    if s.len() > 0 {
        law_kept_drops_only_quotes_braces_spaces(s.drop_last());
    }
}

/// The (key, value) of each item, where an item's key and value are its first
/// two pieces between colons; `None` when some item has no colon.
pub open spec fn items_fields(items: Seq<Seq<char>>) -> Option<Seq<(Seq<char>, Seq<char>)>>
    decreases items.len(),
{
    if items.len() == 0 {
        Some(Seq::empty())
    } else {
        let parts = split_on(items.last(), ":"@);
        match items_fields(items.drop_last()) {
            Some(fs) => if parts.len() >= 2 {
                Some(fs.push((parts[0], parts[1])))
            } else {
                None
            },
            None => None,
        }
    }
}

/// Items give fields exactly when each of them has a colon; the fields then
/// come one per item, in order, each the item's text before its first colon
/// and its text between the first colon and the next (or the end).
pub proof fn law_items_fields(items: Seq<Seq<char>>)
    ensures
        items_fields(items) is None <==> exists|i: int|
            0 <= i < items.len() && split_on(#[trigger] items[i], ":"@).len() < 2,
        items_fields(items) matches Some(fs) ==> {
            &&& fs.len() == items.len()
            &&& forall|i: int|
                0 <= i < items.len() ==> #[trigger] fs[i] == (
                    split_on(items[i], ":"@)[0],
                    split_on(items[i], ":"@)[1],
                )
        },
    decreases items.len(),
{
    if items.len() > 0 {
        let init = items.drop_last();
        law_items_fields(init);
        let n = items.len() - 1;
        assert forall|i: int| 0 <= i < n implies #[trigger] items[i] == init[i] by {}
        if items_fields(init) is None {
            let i = choose|i: int| 0 <= i < init.len() && split_on(#[trigger] init[i], ":"@).len() < 2;
            assert(items[i] == init[i]);
        } else if split_on(items.last(), ":"@).len() < 2 {
            assert(items[n] == items.last());
        } else {
            assert forall|i: int| 0 <= i < items.len() implies split_on(#[trigger] items[i], ":"@).len() >= 2 by {
                if i < n {
                    assert(items[i] == init[i]);
                }
            }
        }
    }
}

/// The fields of a body, in order, or `None` when an item has no colon.
pub open spec fn fields_of(body: Seq<char>) -> Option<Seq<(Seq<char>, Seq<char>)>> {
    items_fields(split_on(kept(body), ","@))
}

/// `s` without quotes, braces and spaces.
fn kept_text(s: &str) -> (r: String)
    ensures
        r@ == kept(s@),
        r@ == s@.filter(|c: char| !(c == '"' || c == '{' || c == '}' || c == ' ')),
{
    proof {
        law_kept_drops_only_quotes_braces_spaces(s@);
    }
    let cs = chars_of(s);
    let mut r = String::new();
    let mut i: usize = 0;
    proof {
        assert(cs@.take(0) =~= Seq::<char>::empty());
    }
    while i < cs.len()
        invariant
            i <= cs@.len(),
            r@ == kept(cs@.take(i as int)),
        decreases cs@.len() - i,
    {
        let c = cs[i];
        proof {
            assert(cs@.take(i + 1).drop_last() =~= cs@.take(i as int));
            assert(cs@.take(i + 1).last() == c);
        }
        if !(c == '"' || c == '{' || c == '}' || c == ' ') {
            push_char(&mut r, c);
        }
        i = i + 1;
    }
    proof {
        assert(cs@.take(cs@.len() as int) =~= cs@);
    }
    r
}

/// The fields of a sign-in body, in order; `None` when an item has no colon.
pub fn parse_request_fields(body: &str) -> (r: Option<Vec<(String, String)>>)
    ensures
        match r {
            Some(fields) => fields_of(body@) == Some(fields.deep_view()),
            None => fields_of(body@) is None,
        },
{
    proof {
        reveal_strlit(",");
        reveal_strlit(":");
    }
    let text = kept_text(body);
    let items = split_text(text.as_str(), ",");
    let mut fields: Vec<(String, String)> = Vec::new();
    let mut i: usize = 0;
    proof {
        assert(items.deep_view().take(0) =~= Seq::<Seq<char>>::empty());
        assert(fields.deep_view() =~= Seq::<(Seq<char>, Seq<char>)>::empty());
    }
    while i < items.len()
        invariant
            i <= items@.len(),
            ":"@.len() == 1,
            items.deep_view() == split_on(kept(body@), ","@),
            items_fields(items.deep_view().take(i as int)) == Some(fields.deep_view()),
        decreases items@.len() - i,
    {
        let ghost taken = items.deep_view().take(i + 1);
        proof {
            assert(taken.drop_last() =~= items.deep_view().take(i as int));
            assert(taken.last() == items@[i as int]@);
        }
        let parts = split_text(items[i].as_str(), ":");
        if parts.len() < 2 {
            proof {
                assert(items_fields(taken) is None);
                lemma_items_fields_none_extends(items.deep_view(), i + 1, items@.len() as int);
                assert(items.deep_view().take(items@.len() as int) =~= items.deep_view());
            }
            return None;
        }
        let ghost before = fields.deep_view();
        fields.push((parts[0].clone(), parts[1].clone()));
        proof {
            assert(fields.deep_view() =~= before.push((parts.deep_view()[0], parts.deep_view()[1])));
        }
        i = i + 1;
    }
    proof {
        assert(items.deep_view().take(items@.len() as int) =~= items.deep_view());
    }
    Some(fields)
}

proof fn lemma_items_fields_none_extends(items: Seq<Seq<char>>, i: int, j: int)
    requires
        0 <= i <= j <= items.len(),
        items_fields(items.take(i)) is None,
    ensures
        items_fields(items.take(j)) is None,
    decreases j - i,
{
    if j > i {
        lemma_items_fields_none_extends(items, i, j - 1);
        assert(items.take(j).drop_last() =~= items.take(j - 1));
    }
}

} // verus!
