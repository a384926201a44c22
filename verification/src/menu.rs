//! The dishes of a menu and the categories they are grouped into.

use crate::price::{price_value, Decimal, Price};
use vstd::prelude::*;

verus! {

/// One dish of the menu.
#[derive(Debug, Clone, PartialEq, Eq)]
pub struct MenuItem {
    pub name_pl: String,
    pub name_en: Option<String>,
    pub description_pl: Option<String>,
    pub description_en: Option<String>,
    /// The label the dish is grouped by.
    pub category: String,
    /// The price of the dish; `None` where the menu lists none.
    pub price: Option<Price>,
}

/// The mathematical value of a [`MenuItem`].
pub struct Dish {
    pub name_pl: Seq<char>,
    pub name_en: Option<Seq<char>>,
    pub description_pl: Option<Seq<char>>,
    pub description_en: Option<Seq<char>>,
    pub category: Seq<char>,
    pub price: Option<Decimal>,
}

/// The characters of an optional text.
pub open spec fn text_of(text: Option<String>) -> Option<Seq<char>> {
    match text {
        Some(s) => Some(s@),
        None => None,
    }
}

impl View for MenuItem {
    type V = Dish;

    open spec fn view(&self) -> Dish {
        Dish {
            name_pl: self.name_pl@,
            name_en: text_of(self.name_en),
            description_pl: text_of(self.description_pl),
            description_en: text_of(self.description_en),
            category: self.category@,
            price: price_value(self.price),
        }
    }
}

/// The values of a sequence of dishes.
pub open spec fn dishes_of(items: Seq<MenuItem>) -> Seq<Dish> {
    items.map_values(|item: MenuItem| item@)
}

/// The mathematical value of a [`MenuCategory`].
pub struct Section {
    pub name: Seq<char>,
    pub items: Seq<Dish>,
}

impl Section {
    /// Every dish of the section carries the section's name as its category.
    pub open spec fn wf(self) -> bool {
        forall|i: int|
            0 <= i < self.items.len() ==> (#[trigger] self.items[i]).category == self.name
    }
}

/// A named group of dishes that share one category label.
#[derive(Debug, PartialEq, Eq)]
pub struct MenuCategory {
    name: String,
    items: Vec<MenuItem>,
}

impl View for MenuCategory {
    type V = Section;

    closed spec fn view(&self) -> Section {
        Section { name: self.name@, items: dishes_of(self.items@) }
    }
}

/// The values of a sequence of categories.
pub open spec fn sections_of(groups: Seq<MenuCategory>) -> Seq<Section> {
    groups.map_values(|group: MenuCategory| group@)
}

impl MenuCategory {
    #[verifier::type_invariant]
    spec fn uniform(self) -> bool {
        self@.wf()
    }

    /// Makes a category of `items`, which all carry `name` as their category.
    pub(crate) fn assemble(name: String, items: Vec<MenuItem>) -> (group: MenuCategory)
        requires
            (Section { name: name@, items: dishes_of(items@) }).wf(),
        ensures
            group@ == (Section { name: name@, items: dishes_of(items@) }),
    {
        MenuCategory { name, items }
    }

    /// The label that the dishes of this category share.
    pub fn name(&self) -> (name: &String)
        ensures
            name@ == self@.name,
    {
        &self.name
    }

    /// The dishes of this category, in the order in which the menu lists them.
    pub fn items(&self) -> (items: &Vec<MenuItem>)
        ensures
            dishes_of(items@) == self@.items,
            self@.wf(),
    {
        proof {
            use_type_invariant(self);
        }
        &self.items
    }
}

} // verus!
