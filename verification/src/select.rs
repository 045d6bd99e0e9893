//! Choosing the channels to export from the catalog of a run.
//!
//! A catalog lists its channels in two families, the generic channels and the raw
//! auxiliary ones, each by id. A channel is chosen where its name is one of the
//! wanted names, letter for letter. A wanted name that no channel carries is passed
//! over: that is no error. The wanted names are a plain list, searched from its
//! start; their order and repetitions change nothing.

use vstd::prelude::*;
use vstd::string::StringExecFns;

verus! {

/// The family of a channel in the catalog.
#[derive(Clone, Copy, Debug, PartialEq, Eq, Structural)]
pub enum Family {
    Generic,
    Raw,
}

/// A channel of the catalog: its family and its id there.
#[derive(Clone, Copy, Debug, PartialEq, Eq, Structural)]
pub struct Selected {
    pub family: Family,
    pub id: usize,
}

/// The names wanted where the caller asks for none: the three position channels.
pub open spec fn default_names() -> Seq<Seq<char>> {
    seq!["ECEF position_X"@, "ECEF position_Y"@, "ECEF position_Z"@]
}

/// The names wanted: the caller's, or the default ones.
pub open spec fn wanted_names(desired: Option<Vec<String>>) -> Seq<Seq<char>> {
    match desired {
        Some(names) => names.deep_view(),
        None => default_names(),
    }
}

/// The ids below `n`, ascending.
pub open spec fn ids(n: int) -> Seq<int> {
    Seq::new(n as nat, |i: int| i)
}

/// Whether the channel of an id carries a wanted name.
pub open spec fn is_wanted(names: Seq<Seq<char>>, wanted: Seq<Seq<char>>) -> spec_fn(int) -> bool {
    |i: int| wanted.contains(names[i])
}

/// The channel of an id in `family`.
pub open spec fn in_family(family: Family) -> spec_fn(int) -> Selected {
    |i: int| (Selected { family, id: i as usize })
}

/// The ids of the channels of one family that carry a wanted name, ascending.
pub open spec fn chosen(names: Seq<Seq<char>>, wanted: Seq<Seq<char>>) -> Seq<int> {
    ids(names.len() as int).filter(is_wanted(names, wanted))
}

/// The channels chosen from a catalog: those of the generic family in the order of
/// their ids, then those of the raw family.
pub open spec fn selection(generic: Seq<Seq<char>>, raw: Seq<Seq<char>>, wanted: Seq<Seq<char>>) -> Seq<
    Selected,
> {
    chosen(generic, wanted).map_values(in_family(Family::Generic)) + chosen(raw, wanted).map_values(
        in_family(Family::Raw),
    )
}

/// Only wanted channels are chosen, each once, in the order of their ids; and every
/// wanted channel of the family is chosen.
pub proof fn lemma_chosen(names: Seq<Seq<char>>, wanted: Seq<Seq<char>>)
    ensures
        forall|x: int|
            0 <= x < chosen(names, wanted).len() ==> {
                &&& 0 <= (#[trigger] chosen(names, wanted)[x]) < names.len()
                &&& wanted.contains(names[chosen(names, wanted)[x]])
            },
        forall|x: int, y: int|
            0 <= x < y < chosen(names, wanted).len() ==> chosen(names, wanted)[x] < chosen(names, wanted)[y],
        forall|i: int|
            0 <= i < names.len() && wanted.contains(#[trigger] names[i]) ==> chosen(names, wanted).contains(i),
    decreases names.len(),
{
    let all = ids(names.len() as int);
    let pred = is_wanted(names, wanted);
    let picked = all.filter(pred);
    if names.len() > 0 {
        let n = names.len() - 1;
        let fewer = names.drop_last();
        lemma_chosen(fewer, wanted);
        let rest = ids(n as int);
        assert(all =~= rest.push(n as int));
        rest.lemma_filter_push(n as int, pred);
        assert(rest.filter(pred) == rest.filter(is_wanted(fewer, wanted))) by {
            lemma_same_filter(rest, pred, is_wanted(fewer, wanted), names, fewer, wanted);
        }
        let before = chosen(fewer, wanted);
        assert forall|i: int| 0 <= i < names.len() && wanted.contains(#[trigger] names[i]) implies picked.contains(
            i,
        ) by {
            if i < n {
                assert(fewer[i] == names[i]);
                let x = choose|x: int| 0 <= x < before.len() && before[x] == i;
                assert(picked[x] == i);
            } else {
                assert(picked[before.len() as int] == i);
            }
        }
        assert forall|x: int| 0 <= x < picked.len() implies 0 <= #[trigger] picked[x] < names.len()
            && wanted.contains(names[picked[x]]) by {
            if x < before.len() {
                assert(picked[x] == before[x]);
                assert(fewer[before[x]] == names[before[x]]);
            }
        }
    } else {
        assert(all =~= Seq::<int>::empty());
    }
}

/// The choice depends on which names are wanted, not on their order or on how often
/// a name is given.
pub proof fn lemma_selection_ignores_order(
    generic: Seq<Seq<char>>,
    raw: Seq<Seq<char>>,
    first: Seq<Seq<char>>,
    second: Seq<Seq<char>>,
)
    requires
        forall|name: Seq<char>| first.contains(name) <==> second.contains(name),
    ensures
        selection(generic, raw, first) == selection(generic, raw, second),
{
    assert(is_wanted(generic, first) =~= is_wanted(generic, second));
    assert(is_wanted(raw, first) =~= is_wanted(raw, second));
}

/// Filtering ids by the names of a family does not look past the ids filtered.
proof fn lemma_same_filter(
    list: Seq<int>,
    p: spec_fn(int) -> bool,
    q: spec_fn(int) -> bool,
    names: Seq<Seq<char>>,
    fewer: Seq<Seq<char>>,
    wanted: Seq<Seq<char>>,
)
    requires
        p == is_wanted(names, wanted),
        q == is_wanted(fewer, wanted),
        fewer == names.drop_last(),
        names.len() > 0,
        forall|x: int| 0 <= x < list.len() ==> 0 <= #[trigger] list[x] < fewer.len(),
    ensures
        list.filter(p) == list.filter(q),
    decreases list.len(),
{
    reveal(Seq::filter);
    if list.len() > 0 {
        lemma_same_filter(list.drop_last(), p, q, names, fewer, wanted);
        assert(fewer[list.last()] == names[list.last()]);
    }
}

/// The names wanted where the caller asks for none.
pub fn default_channels() -> (names: Vec<String>)
    ensures
        names.deep_view() == default_names(),
{
    let mut names: Vec<String> = Vec::new();
    names.push(String::from_str("ECEF position_X"));
    names.push(String::from_str("ECEF position_Y"));
    names.push(String::from_str("ECEF position_Z"));
    assert(names.deep_view() =~= default_names());
    names
}

/// Whether `name` is one of `names`.
pub fn is_listed(names: &Vec<String>, name: &String) -> (r: bool)
    ensures
        r == names.deep_view().contains(name@),
{
    let mut i: usize = 0;
    while i < names.len()
        invariant
            i <= names.len(),
            forall|j: int| 0 <= j < i ==> (#[trigger] names[j])@ != name@,
        decreases names.len() - i,
    {
        if names[i] == *name {
            assert(names.deep_view()[i as int] == name@);
            return true;
        }
        i += 1;
    }
    assert forall|j: int| 0 <= j < names.deep_view().len() implies names.deep_view()[j] != name@ by {
        assert(names.deep_view()[j] == names[j]@);
    }
    false
}

/// Adds the chosen channels of one family to `out`.
fn select_family(out: &mut Vec<Selected>, family: Family, names: &Vec<String>, wanted: &Vec<String>)
    ensures
        final(out)@ == old(out)@ + chosen(names.deep_view(), wanted.deep_view()).map_values(
            in_family(family),
        ),
{
    let ghost view = names.deep_view();
    let ghost pred = is_wanted(view, wanted.deep_view());
    let ghost tag = in_family(family);
    let mut id: usize = 0;
    assert(ids(0).filter(pred) =~= Seq::<int>::empty());
    assert(out@ =~= old(out)@ + ids(0).filter(pred).map_values(tag));
    while id < names.len()
        invariant
            id <= names.len(),
            view == names.deep_view(),
            pred == is_wanted(view, wanted.deep_view()),
            tag == in_family(family),
            out@ == old(out)@ + ids(id as int).filter(pred).map_values(tag),
        decreases names.len() - id,
    {
        let ghost before = ids(id as int);
        proof {
            assert(ids(id + 1) =~= before.push(id as int));
            before.lemma_filter_push(id as int, pred);
            assert(view[id as int] == names[id as int]@);
        }
        if is_listed(wanted, &names[id]) {
            out.push(Selected { family, id });
            assert(out@ =~= old(out)@ + ids(id + 1).filter(pred).map_values(tag));
        }
        id += 1;
    }
}

/// Chooses from a catalog the channels whose name is wanted.
///
/// `generic` and `raw` give the name of each channel of the two families, by id.
/// `desired` holds the wanted names; without it the default names are wanted.
pub fn select_channels(generic: &Vec<String>, raw: &Vec<String>, desired: &Option<Vec<String>>) -> (picked:
    Vec<Selected>)
    ensures
        picked@ == selection(generic.deep_view(), raw.deep_view(), wanted_names(*desired)),
{
    let mut picked: Vec<Selected> = Vec::new();
    match desired {
        Some(names) => {
            select_family(&mut picked, Family::Generic, generic, names);
            select_family(&mut picked, Family::Raw, raw, names);
        },
        None => {
            let names: Vec<String> = default_channels();
            select_family(&mut picked, Family::Generic, generic, &names);
            select_family(&mut picked, Family::Raw, raw, &names);
        },
    }
    assert(picked@ =~= selection(generic.deep_view(), raw.deep_view(), wanted_names(*desired)));
    picked
}

} // verus!
