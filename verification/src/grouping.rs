//! Grouping of dishes by category.
//!
//! The dishes of a menu are partitioned by their category label. The groups
//! come in the order in which their labels first appear in the menu, and each
//! group lists its dishes in the order of the menu.

use crate::menu::{dishes_of, sections_of, Dish, MenuCategory, MenuItem, Section};
use vstd::prelude::*;

verus! {

/// The test that picks the dishes of category `name`.
pub open spec fn in_category(name: Seq<char>) -> spec_fn(Dish) -> bool {
    |dish: Dish| dish.category == name
}

/// The dishes of `items` whose category is `name`, in the order of `items`.
pub open spec fn members(items: Seq<Dish>, name: Seq<char>) -> Seq<Dish> {
    items.filter(in_category(name))
}

/// The category labels that occur in `items`, each once, in the order of
/// their first appearance.
pub open spec fn category_names(items: Seq<Dish>) -> Seq<Seq<char>>
    decreases items.len(),
{
    if items.len() == 0 {
        Seq::empty()
    } else {
        let earlier = category_names(items.drop_last());
        if earlier.contains(items.last().category) {
            earlier
        } else {
            earlier.push(items.last().category)
        }
    }
}

/// The group that `items` forms under the label `name`.
pub open spec fn section_of(items: Seq<Dish>, name: Seq<char>) -> Section {
    Section { name, items: members(items, name) }
}

/// The groups of `items`: one for each category label that occurs.
pub open spec fn grouped(items: Seq<Dish>) -> Seq<Section> {
    category_names(items).map_values(|name: Seq<char>| section_of(items, name))
}

/// The dishes of all `groups`, one group after the other.
pub open spec fn flattened(groups: Seq<Section>) -> Seq<Dish>
    decreases groups.len(),
{
    if groups.len() == 0 {
        Seq::empty()
    } else {
        flattened(groups.drop_last()) + groups.last().items
    }
}

/// No two of the `groups` share a name, and each holds only dishes of the
/// category that names it.
pub open spec fn is_partition(groups: Seq<Section>) -> bool {
    &&& forall|g: int| 0 <= g < groups.len() ==> (#[trigger] groups[g]).wf()
    &&& forall|g: int, h: int|
        0 <= g < h < groups.len() ==> (#[trigger] groups[g]).name != (#[trigger] groups[h]).name
}

/// A label is among the category names exactly if some dish carries it.
pub proof fn lemma_names_are_the_categories(items: Seq<Dish>, name: Seq<char>)
    ensures
        category_names(items).contains(name) <==> exists|i: int|
            0 <= i < items.len() && (#[trigger] items[i]).category == name,
    decreases items.len(),
{
    if items.len() > 0 {
        let head = items.drop_last();
        let earlier = category_names(head);
        lemma_names_are_the_categories(head, name);
        if category_names(items).contains(name) {
            if earlier.contains(name) {
                let i = choose|i: int| 0 <= i < head.len() && (#[trigger] head[i]).category == name;
                assert(items[i].category == name);
            } else {
                assert(earlier.push(items.last().category).contains(name));
                let k = choose|k: int|
                    0 <= k < category_names(items).len() && category_names(items)[k] == name;
                assert(k == earlier.len());
                assert(items[items.len() - 1].category == name);
            }
        }
        if exists|i: int| 0 <= i < items.len() && (#[trigger] items[i]).category == name {
            let i = choose|i: int| 0 <= i < items.len() && (#[trigger] items[i]).category == name;
            if i < head.len() {
                assert(head[i].category == name);
                assert(earlier.contains(name));
                let k = choose|k: int| 0 <= k < earlier.len() && earlier[k] == name;
                assert(category_names(items)[k] == name);
            } else {
                if earlier.contains(name) {
                } else {
                    assert(category_names(items)[earlier.len() as int] == name);
                }
            }
        }
    }
}

/// No category name is listed twice.
pub proof fn lemma_names_are_distinct(items: Seq<Dish>)
    ensures
        category_names(items).no_duplicates(),
    decreases items.len(),
{
    if items.len() > 0 {
        lemma_names_are_distinct(items.drop_last());
    }
}

/// The dishes of a category that does not occur are none.
pub proof fn lemma_no_members_without_name(items: Seq<Dish>, name: Seq<char>)
    requires
        !category_names(items).contains(name),
    ensures
        members(items, name).len() == 0,
    decreases items.len(),
{
    reveal(Seq::filter);
    if items.len() > 0 {
        let head = items.drop_last();
        lemma_names_are_the_categories(items, name);
        lemma_names_are_the_categories(head, name);
        assert(items[items.len() - 1].category != name);
        if category_names(head).contains(name) {
            let i = choose|i: int| 0 <= i < head.len() && (#[trigger] head[i]).category == name;
            assert(items[i].category == name);
        }
        lemma_no_members_without_name(head, name);
    }
}

/// The group `group` once `dish` has been offered to it: the dish joins at
/// the end if the group is that of its category.
pub open spec fn offered(group: Section, dish: Dish) -> Section {
    if group.name == dish.category {
        Section { name: group.name, items: group.items.push(dish) }
    } else {
        group
    }
}

/// One of the `groups` is that of the category `name`.
pub open spec fn has_group(groups: Seq<Section>, name: Seq<char>) -> bool {
    exists|g: int| 0 <= g < groups.len() && (#[trigger] groups[g]).name == name
}

/// The `groups` once `dish` has joined them: at the end of the group of its
/// category, or in a new last group if there is no such group yet.
pub open spec fn joined(groups: Seq<Section>, dish: Dish) -> Seq<Section> {
    if has_group(groups, dish.category) {
        groups.map_values(|group: Section| offered(group, dish))
    } else {
        groups.push(Section { name: dish.category, items: seq![dish] })
    }
}

/// Grouping is an accumulation over the menu: the groups of a menu grow by
/// one dish at a time, each dish joining the groups of the dishes before it.
pub proof fn lemma_grouped_push(items: Seq<Dish>, dish: Dish)
    ensures
        grouped(items.push(dish)) == joined(grouped(items), dish),
        has_group(grouped(items), dish.category) <==> category_names(items).contains(
            dish.category,
        ),
{
    let more = items.push(dish);
    let names = category_names(items);
    let groups = grouped(items);
    assert(more.drop_last() == items);
    assert forall|name: Seq<char>| #[trigger]
        members(more, name) == if dish.category == name {
            members(items, name).push(dish)
        } else {
            members(items, name)
        } by {
        items.lemma_filter_push(dish, in_category(name));
    }
    if names.contains(dish.category) {
        let k = choose|k: int| 0 <= k < names.len() && names[k] == dish.category;
        assert(groups[k].name == dish.category);
        assert(category_names(more) == names);
        assert(grouped(more) =~= joined(groups, dish)) by {
            assert forall|g: int| 0 <= g < groups.len() implies grouped(more)[g] == offered(
                groups[g],
                dish,
            ) by {
                assert(grouped(more)[g] == section_of(more, names[g]));
                assert(groups[g] == section_of(items, names[g]));
            }
        }
    } else {
        assert(!has_group(groups, dish.category)) by {
            if has_group(groups, dish.category) {
                let g = choose|g: int|
                    0 <= g < groups.len() && (#[trigger] groups[g]).name == dish.category;
                assert(names[g] == dish.category);
            }
        }
        assert(category_names(more) == names.push(dish.category));
        lemma_no_members_without_name(items, dish.category);
        assert(members(more, dish.category) == seq![dish]);
        assert(grouped(more) =~= joined(groups, dish)) by {
            assert forall|g: int| 0 <= g < grouped(more).len() implies grouped(more)[g] == joined(
                groups,
                dish,
            )[g] by {
                if g < names.len() {
                    assert(names[g] != dish.category);
                    assert(groups[g] == section_of(items, names[g]));
                }
            }
        }
    }
}

/// The groups of a menu partition it: their names differ, and each holds
/// only dishes of its own category.
pub proof fn lemma_grouped_is_partition(items: Seq<Dish>)
    ensures
        is_partition(grouped(items)),
{
    let groups = grouped(items);
    lemma_names_are_distinct(items);
    assert forall|g: int| 0 <= g < groups.len() implies (#[trigger] groups[g]).wf() by {
        let name = category_names(items)[g];
        let dishes = groups[g].items;
        assert forall|i: int| 0 <= i < dishes.len() implies (#[trigger] dishes[i]).category
            == groups[g].name by {
            items.lemma_filter_pred(in_category(name), i);
        }
    }
}

/// An empty menu has no groups.
pub proof fn lemma_empty_menu_has_no_groups()
    ensures
        grouped(Seq::<Dish>::empty()) == Seq::<Section>::empty(),
{
    assert(grouped(Seq::<Dish>::empty()) =~= Seq::<Section>::empty());
}

/// A menu of a single category has one group, which holds all its dishes.
pub proof fn lemma_single_category_is_one_group(items: Seq<Dish>, name: Seq<char>)
    requires
        items.len() > 0,
        forall|i: int| 0 <= i < items.len() ==> (#[trigger] items[i]).category == name,
    ensures
        grouped(items) == seq![Section { name, items }],
    decreases items.len(),
{
    let head = items.drop_last();
    let dish = items.last();
    assert(head.push(dish) == items);
    lemma_grouped_push(head, dish);
    if head.len() == 0 {
        lemma_empty_menu_has_no_groups();
        assert(items =~= seq![dish]);
        assert(grouped(items) =~= seq![Section { name, items }]);
    } else {
        assert forall|i: int| 0 <= i < head.len() implies (#[trigger] head[i]).category
            == name by {
            assert(head[i] == items[i]);
        }
        lemma_single_category_is_one_group(head, name);
        assert(grouped(head)[0].name == name);
        assert(has_group(grouped(head), name));
        assert(grouped(items) =~= seq![Section { name, items }]);
    }
}

/// Adding one dish to one group adds that dish to the dishes of all groups.
proof fn lemma_flattened_grows(before: Seq<Section>, after: Seq<Section>, j: int, dish: Dish)
    requires
        0 <= j < before.len(),
        after.len() == before.len(),
        after[j].items == before[j].items.push(dish),
        forall|g: int| 0 <= g < before.len() && g != j ==> after[g] == before[g],
    ensures
        flattened(after).to_multiset() == flattened(before).to_multiset().insert(dish),
    decreases before.len(),
{
    broadcast use {
        vstd::seq_lib::to_multiset_build,
        vstd::seq_lib::lemma_multiset_commutative,
    };

    let b_head = before.drop_last();
    let a_head = after.drop_last();
    if j == before.len() - 1 {
        assert(a_head =~= b_head);
        assert(flattened(b_head) + before.last().items.push(dish) =~= (flattened(b_head)
            + before.last().items).push(dish));
    } else {
        lemma_flattened_grows(b_head, a_head, j, dish);
        assert(after.last() == before.last());
    }
}

/// Grouping loses no dish and repeats none: the dishes of all groups taken
/// together are the dishes of the menu, each as often as the menu lists it.
pub proof fn lemma_grouping_keeps_every_dish(items: Seq<Dish>)
    ensures
        flattened(grouped(items)).to_multiset() == items.to_multiset(),
    decreases items.len(),
{
    broadcast use {
        vstd::seq_lib::to_multiset_build,
        vstd::seq_lib::lemma_multiset_commutative,
    };

    if items.len() == 0 {
        assert(grouped(items) =~= Seq::<Section>::empty());
        assert(flattened(grouped(items)) =~= items);
    } else {
        let head = items.drop_last();
        let dish = items.last();
        assert(head.push(dish) == items);
        lemma_grouping_keeps_every_dish(head);
        lemma_grouped_push(head, dish);
        let groups = grouped(head);
        if has_group(groups, dish.category) {
            let j = choose|j: int|
                0 <= j < groups.len() && (#[trigger] groups[j]).name == dish.category;
            lemma_grouped_is_partition(head);
            assert forall|g: int| 0 <= g < groups.len() && g != j implies grouped(items)[g]
                == groups[g] by {
                assert(groups[g].name != groups[j].name);
            }
            lemma_flattened_grows(groups, grouped(items), j, dish);
        } else {
            let fresh = Section { name: dish.category, items: seq![dish] };
            assert(groups.push(fresh).drop_last() == groups);
            assert(flattened(grouped(items)) =~= flattened(groups).push(dish));
        }
    }
}

/// The dishes of all groups are those of one group and those of the others.
proof fn lemma_flattened_without(groups: Seq<Section>, i: int)
    requires
        0 <= i < groups.len(),
    ensures
        flattened(groups).to_multiset() == flattened(groups.remove(i)).to_multiset().add(
            groups[i].items.to_multiset(),
        ),
    decreases groups.len(),
{
    broadcast use vstd::seq_lib::lemma_multiset_commutative;

    let head = groups.drop_last();
    if i == groups.len() - 1 {
        assert(groups.remove(i) =~= head);
    } else {
        lemma_flattened_without(head, i);
        assert(groups.remove(i).drop_last() =~= head.remove(i));
        assert(groups.remove(i).last() == groups.last());
        assert(flattened(groups).to_multiset() =~= flattened(groups.remove(i)).to_multiset().add(
            groups[i].items.to_multiset(),
        ));
    }
}

/// The dishes of all groups, as a collection without order, do not depend
/// on the order of the groups.
pub proof fn lemma_flattened_ignores_group_order(first: Seq<Section>, second: Seq<Section>)
    requires
        first.to_multiset() == second.to_multiset(),
    ensures
        flattened(first).to_multiset() == flattened(second).to_multiset(),
    decreases first.len(),
{
    broadcast use {
        vstd::seq_lib::to_multiset_len,
        vstd::seq_lib::to_multiset_contains,
        vstd::seq_lib::to_multiset_remove,
    };

    if first.len() == 0 {
        vstd::seq_lib::to_multiset_len(first);
        vstd::seq_lib::to_multiset_len(second);
        assert(second.len() == 0);
    } else {
        let last = first.len() - 1;
        let group = first[last];
        assert(first.contains(group));
        assert(first.to_multiset().count(group) > 0);
        assert(second.contains(group));
        let i = choose|i: int| 0 <= i < second.len() && second[i] == group;
        assert(first.remove(last).to_multiset() == second.remove(i).to_multiset());
        lemma_flattened_ignores_group_order(first.remove(last), second.remove(i));
        lemma_flattened_without(first, last);
        lemma_flattened_without(second, i);
    }
}

/// In whatever order the groups of a menu are taken, their dishes together
/// are the dishes of the menu, each as often as the menu lists it.
pub proof fn lemma_groups_in_any_order_keep_every_dish(items: Seq<Dish>, groups: Seq<Section>)
    requires
        groups.to_multiset() == grouped(items).to_multiset(),
    ensures
        flattened(groups).to_multiset() == items.to_multiset(),
{
    lemma_flattened_ignores_group_order(groups, grouped(items));
    lemma_grouping_keeps_every_dish(items);
}

/// The dishes of a menu sorted into groups, one for each category label:
/// the mapping from a label to the dishes that carry it.
#[derive(Debug, PartialEq, Eq)]
pub struct Grouping {
    entries: Vec<(String, Vec<MenuItem>)>,
}

/// The groups that the entries of a grouping stand for.
pub closed spec fn entry_sections(entries: Seq<(String, Vec<MenuItem>)>) -> Seq<Section> {
    entries.map_values(
        |entry: (String, Vec<MenuItem>)| Section { name: entry.0@, items: dishes_of(entry.1@) },
    )
}

impl View for Grouping {
    type V = Seq<Section>;

    closed spec fn view(&self) -> Seq<Section> {
        entry_sections(self.entries@)
    }
}

impl Grouping {
    #[verifier::type_invariant]
    spec fn partitioned(self) -> bool {
        is_partition(self@)
    }

    /// The number of groups.
    pub fn len(&self) -> (n: usize)
        ensures
            n == self@.len(),
    {
        self.entries.len()
    }
}

/// The place of the entry named `key`, if there is one.
fn find_entry(entries: &Vec<(String, Vec<MenuItem>)>, key: &String) -> (slot: Option<usize>)
    ensures
        match slot {
            Some(j) => j < entries.len() && entries@[j as int].0@ == key@,
            None => forall|i: int| 0 <= i < entries.len() ==> (#[trigger] entries@[i]).0@ != key@,
        },
{
    let mut j: usize = 0;
    while j < entries.len()
        invariant
            j <= entries.len(),
            forall|i: int| 0 <= i < j ==> (#[trigger] entries@[i]).0@ != key@,
        decreases entries.len() - j,
    {
        if entries[j].0 == *key {
            return Some(j);
        }
        j = j + 1;
    }
    None
}

/// Sorts the dishes of a menu into groups by their category.
///
/// There is one group for each category label that occurs, and the groups
/// stand in the order in which their labels first appear. Each group holds
/// the dishes of its category in the order of `dishes`. No dish is lost and
/// none is repeated. An empty menu has no groups.
pub fn group_dishes(dishes: Vec<MenuItem>) -> (map: Grouping)
    ensures
        map@ == grouped(dishes_of(dishes@)),
        is_partition(map@),
        forall|g: int|
            0 <= g < map@.len() ==> (#[trigger] map@[g]).items == members(
                dishes_of(dishes@),
                map@[g].name,
            ),
        flattened(map@).to_multiset() == dishes_of(dishes@).to_multiset(),
{
    let ghost input = dishes@;
    let ghost all = dishes_of(input);
    let mut entries: Vec<(String, Vec<MenuItem>)> = Vec::new();
    proof {
        assert(entry_sections(entries@) =~= grouped(all.take(0)));
    }
    for item in it: dishes
        invariant
            it.seq() == input,
            all == dishes_of(input),
            entry_sections(entries@) == grouped(all.take(it.index())),
    {
        let ghost seen = all.take(it.index());
        let ghost before = entries@;
        proof {
            assert(all.take(it.index() + 1) == seen.push(item@));
            lemma_grouped_push(seen, item@);
            lemma_grouped_is_partition(seen);
        }
        match find_entry(&entries, &item.category) {
            Some(j) => {
                proof {
                    assert(entry_sections(before)[j as int].name == item@.category);
                }
                entries[j].1.push(item);
                proof {
                    assert(dishes_of(entries@[j as int].1@) =~= dishes_of(before[j as int].1@).push(
                        item@,
                    ));
                    assert forall|g: int| 0 <= g < before.len() implies entry_sections(entries@)[g]
                        == offered(entry_sections(before)[g], item@) by {
                        if g != j {
                            assert(entry_sections(before)[g].name != entry_sections(
                                before,
                            )[j as int].name);
                        }
                    }
                    assert(entry_sections(entries@) =~= joined(entry_sections(before), item@));
                }
            },
            None => {
                proof {
                    if has_group(entry_sections(before), item@.category) {
                        let g = choose|g: int|
                            0 <= g < before.len() && (#[trigger] entry_sections(before)[g]).name
                                == item@.category;
                        assert(before[g].0@ == item@.category);
                    }
                }
                let key = item.category.clone();
                let mut bucket: Vec<MenuItem> = Vec::new();
                bucket.push(item);
                entries.push((key, bucket));
                proof {
                    assert(dishes_of(bucket@) =~= seq![item@]);
                    assert(entry_sections(entries@) =~= joined(entry_sections(before), item@));
                }
            },
        }
    }
    proof {
        assert(all.take(input.len() as int) == all);
        lemma_grouped_is_partition(all);
        lemma_grouping_keeps_every_dish(all);
    }
    Grouping { entries }
}

/// Turns the groups of a grouping into categories, one for each group, in
/// the same order and with the same dishes.
pub fn grouped_to_categories(map: Grouping) -> (groups: Vec<MenuCategory>)
    ensures
        sections_of(groups@) == map@,
        is_partition(map@),
{
    proof {
        use_type_invariant(&map);
    }
    let ghost sections = map@;
    let mut groups: Vec<MenuCategory> = Vec::new();
    for entry in it: map.entries
        invariant
            entry_sections(it.seq()) == sections,
            is_partition(sections),
            groups@.len() == it.index(),
            sections_of(groups@) == sections.take(it.index()),
    {
        let ghost k = it.index();
        let ghost earlier = groups@;
        proof {
            assert(entry_sections(it.seq())[k] == sections[k]);
            assert(sections[k].wf());
        }
        let group = MenuCategory::assemble(entry.0, entry.1);
        proof {
            assert(group@ == sections[k]);
        }
        groups.push(group);
        proof {
            assert(groups@ == earlier.push(group));
            assert(sections.len() == it.seq().len());
            assert forall|g: int| 0 <= g < k + 1 implies sections_of(groups@)[g] == sections.take(
                k + 1,
            )[g] by {
                if g < k {
                    assert(sections_of(earlier)[g] == sections.take(k)[g]);
                }
            }
            assert(sections_of(groups@) =~= sections.take(k + 1));
        }
    }
    proof {
        assert(sections.take(sections.len() as int) == sections);
    }
    groups
}

} // verus!
