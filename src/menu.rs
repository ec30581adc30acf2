//! The navigation state: one level of the tree flattened into a list of
//! items, and the stack of levels entered from the root.
use vstd::prelude::*;
use vstd::string::*;
use crate::resolve::{field_at, find_field, find_field_index, lemma_field_at_push, lemma_find_field, names_of, node_at};
use crate::text::push_char;
use crate::schema::{
    format_field_value, value_text, ConfigError, ConfigField, ConfigNode, FieldType, FieldValue,
};

verus! {

/// One row of a level: a field's name, its value as text, and its kind.
pub struct MenuItem {
    pub label: String,
    pub value: String,
    pub is_submenu: bool,
    pub is_vec_container: bool,
    pub field_type: FieldType,
}

/// One entered level of the tree.
pub struct MenuLevel {
    pub items: Vec<MenuItem>,
    pub selection: usize,
    pub title: String,
    /// The names of the fields from the root down to this level.
    pub field_path: Vec<String>,
}

pub struct MenuState {
    pub current_selection: usize,
    pub items: Vec<MenuItem>,
    /// The titles of the levels, the root's first.
    pub breadcrumb: Vec<String>,
    pub menu_stack: Vec<MenuLevel>,
}

/// The row shows the field as it stands.
pub open spec fn item_of(item: MenuItem, f: ConfigField) -> bool {
    &&& item.label@ == f.meta.name@
    &&& item.value@ == value_text(f.value)
    &&& item.is_submenu == f.meta.is_nested
    &&& item.is_vec_container == f.meta.is_vec
    &&& item.field_type == f.meta.field_type
}

/// The rows show the fields of `node`, one for one and in order.
pub open spec fn items_of(items: Seq<MenuItem>, node: ConfigNode) -> bool {
    items.len() == node.fields@.len() && forall|i: int|
        0 <= i < items.len() ==> item_of(#[trigger] items[i], node.fields@[i])
}

pub open spec fn selection_ok(s: usize, n: nat) -> bool {
    s < n || (n == 0 && s == 0)
}

/// Whether a level can be entered at the field called `name` of `parent`.
pub open spec fn enter_result(parent: ConfigNode, name: Seq<char>) -> Result<(), ConfigError> {
    let i = find_field(parent.fields@, name);
    if i < 0 {
        Err(ConfigError::NotFound)
    } else if !parent.fields@[i].meta.is_nested {
        Err(ConfigError::NotNested)
    } else if !(parent.fields@[i].value is Nested) {
        Err(ConfigError::AccessFailed)
    } else {
        Ok(())
    }
}

/// Entering succeeds exactly where one more name leads to a subtree.
pub proof fn lemma_enter_ok(parent: ConfigNode, name: Seq<char>)
    ensures
        (enter_result(parent, name) is Ok) == (node_at(parent, seq![name]) is Some),
        enter_result(parent, name) is Ok ==> node_at(parent, seq![name]) == Some(child_named(parent, name)),
{
    lemma_find_field(parent.fields@, name);
}

/// The subtree held by the field called `name` of `parent`.
pub open spec fn child_named(parent: ConfigNode, name: Seq<char>) -> ConfigNode {
    parent.fields@[find_field(parent.fields@, name)].value->Nested_0
}

/// What follows a row's value: " >" on a subtree, " []" on a list.
pub open spec fn indicator(item: MenuItem) -> Seq<char> {
    if item.is_submenu {
        seq![' ', '>']
    } else if item.is_vec_container {
        seq![' ', '[', ']']
    } else {
        Seq::empty()
    }
}

/// The line in which a row is drawn: its label, a colon, its value, its indicator.
pub open spec fn item_line_text(item: MenuItem) -> Seq<char> {
    item.label@ + seq![':', ' '] + item.value@ + indicator(item)
}

/// The titles joined by " > ".
pub open spec fn joined_titles(titles: Seq<String>) -> Seq<char>
    decreases titles.len(),
{
    if titles.len() == 0 {
        Seq::empty()
    } else if titles.len() == 1 {
        titles[0]@
    } else {
        joined_titles(titles.drop_last()) + seq![' ', '>', ' '] + titles.last()@
    }
}

/// The line in which a row is drawn.
pub fn item_line(item: &MenuItem) -> (r: String)
    ensures
        r@ == item_line_text(*item),
{
    let mut r = item.label.clone();
    push_char(&mut r, ':');
    push_char(&mut r, ' ');
    r.append(item.value.as_str());
    if item.is_submenu {
        push_char(&mut r, ' ');
        push_char(&mut r, '>');
    } else if item.is_vec_container {
        push_char(&mut r, ' ');
        push_char(&mut r, '[');
        push_char(&mut r, ']');
    }
    assert(r@ =~= item_line_text(*item));
    r
}

impl MenuItem {
    pub fn duplicate(&self) -> (r: MenuItem)
        ensures
            r == *self,
    {
        MenuItem {
            label: self.label.clone(),
            value: self.value.clone(),
            is_submenu: self.is_submenu,
            is_vec_container: self.is_vec_container,
            field_type: self.field_type,
        }
    }
}

pub fn copy_items(v: &Vec<MenuItem>) -> (r: Vec<MenuItem>)
    ensures
        r@ == v@,
{
    let mut r: Vec<MenuItem> = Vec::new();
    let mut i: usize = 0;
    while i < v.len()
        invariant
            i <= v@.len(),
            r@ == v@.take(i as int),
        decreases v@.len() - i,
    {
        r.push(v[i].duplicate());
        assert(r@ =~= v@.take(i + 1));
        i = i + 1;
    }
    assert(v@.take(v@.len() as int) =~= v@);
    r
}

pub fn copy_names(v: &Vec<String>) -> (r: Vec<String>)
    ensures
        r@ == v@,
{
    let mut r: Vec<String> = Vec::new();
    let mut i: usize = 0;
    while i < v.len()
        invariant
            i <= v@.len(),
            r@ == v@.take(i as int),
        decreases v@.len() - i,
    {
        r.push(v[i].clone());
        assert(r@ =~= v@.take(i + 1));
        i = i + 1;
    }
    assert(v@.take(v@.len() as int) =~= v@);
    r
}

/// The rows of one level: each field of `node` with its value as text. An
/// optional field that holds nothing shows the unset marker.
pub fn build_menu_items(node: &ConfigNode) -> (r: Vec<MenuItem>)
    ensures
        items_of(r@, *node),
{
    let mut r: Vec<MenuItem> = Vec::new();
    let mut i: usize = 0;
    while i < node.fields.len()
        invariant
            i <= node.fields@.len(),
            r@.len() == i,
            forall|j: int| 0 <= j < i ==> item_of(#[trigger] r@[j], node.fields@[j]),
        decreases node.fields@.len() - i,
    {
        let f = &node.fields[i];
        let item = MenuItem {
            label: f.meta.name.clone(),
            value: format_field_value(&f.value),
            is_submenu: f.meta.is_nested,
            is_vec_container: f.meta.is_vec,
            field_type: f.meta.field_type,
        };
        r.push(item);
        i = i + 1;
    }
    r
}

impl MenuState {
    pub open spec fn depth(&self) -> nat {
        self.menu_stack@.len()
    }

    pub open spec fn top(&self) -> MenuLevel {
        self.menu_stack@.last()
    }

    /// The titles of the entered levels below the root.
    pub open spec fn nav_path(&self) -> Seq<Seq<char>> {
        Seq::new((self.depth() - 1) as nat, |k: int| self.menu_stack@[k + 1].title@)
    }

    pub open spec fn has_current(&self) -> bool {
        self.current_selection < self.items@.len()
    }

    pub open spec fn current(&self) -> MenuItem {
        self.items@[self.current_selection as int]
    }

    /// The address of the selected field: the level's path and the field's name.
    pub open spec fn current_path(&self) -> Seq<Seq<char>> {
        if self.has_current() {
            names_of(self.top().field_path@).push(self.current().label@)
        } else {
            names_of(self.top().field_path@)
        }
    }

    pub open spec fn wf(&self) -> bool {
        let st = self.menu_stack@;
        &&& st.len() >= 1
        &&& self.breadcrumb@.len() == st.len()
        &&& forall|k: int| 0 <= k < st.len() ==> (#[trigger] self.breadcrumb@[k])@ == st[k].title@
        &&& forall|k: int| 0 <= k < st.len() ==> (#[trigger] st[k]).field_path@.len() == k
        &&& forall|k: int, j: int|
            0 <= j < k < st.len() ==> (#[trigger] st[k].field_path@[j])@ == st[j + 1].title@
        &&& forall|k: int| 0 <= k < st.len() ==> selection_ok((#[trigger] st[k]).selection, st[k].items@.len())
        &&& self.items@ == st.last().items@
        &&& selection_ok(self.current_selection, self.items@.len())
    }

    /// Every level shows the subtree of `root` that its path leads to.
    pub open spec fn reflects(&self, root: ConfigNode) -> bool {
        forall|k: int|
            0 <= k < self.menu_stack@.len() ==> {
                let n = node_at(root, names_of((#[trigger] self.menu_stack@[k]).field_path@));
                n is Some && items_of(self.menu_stack@[k].items@, n->Some_0)
            }
    }

    /// The root level of `root`, with its first row selected.
    pub fn new(root: &ConfigNode) -> (r: MenuState)
        ensures
            r.wf(),
            r.depth() == 1,
            r.reflects(*root),
            items_of(r.items@, *root),
            r.current_selection == 0,
            r.menu_stack@[0].title@ == root.title@,
    {
        let items = build_menu_items(root);
        let level = MenuLevel {
            items: copy_items(&items),
            selection: 0,
            title: root.title.clone(),
            field_path: Vec::new(),
        };
        let mut breadcrumb: Vec<String> = Vec::new();
        breadcrumb.push(root.title.clone());
        let mut menu_stack: Vec<MenuLevel> = Vec::new();
        menu_stack.push(level);
        let r = MenuState { current_selection: 0, items, breadcrumb, menu_stack };
        assert(names_of(r.menu_stack@[0].field_path@) =~= Seq::<Seq<char>>::empty());
        r
    }

    /// Enters the subtree held by the field called `field_name` of `parent`,
    /// the instance that the current level shows: a new level with its rows,
    /// titled `field_name`, its first row selected. The level left behind
    /// keeps its selection. On an error nothing changes.
    pub fn enter_submenu_by_name(&mut self, parent: &ConfigNode, field_name: &str) -> (r: Result<
        (),
        ConfigError,
    >)
        requires
            old(self).wf(),
        ensures
            final(self).wf(),
            r == enter_result(*parent, field_name@),
            r is Err ==> *final(self) == *old(self),
            final(self).menu_stack@[0].title == old(self).menu_stack@[0].title,
            r is Ok ==> {
                let st0 = old(self).menu_stack@;
                let st1 = final(self).menu_stack@;
                let n = st0.len();
                &&& st1.len() == n + 1
                &&& forall|k: int| 0 <= k < n - 1 ==> #[trigger] st1[k] == st0[k]
                &&& st1[n - 1] == MenuLevel { selection: old(self).current_selection, ..st0[n - 1] }
                &&& st1[n as int].title@ == field_name@
                &&& st1[n as int].selection == 0
                &&& names_of(final(self).breadcrumb@) == names_of(old(self).breadcrumb@).push(
                    field_name@,
                )
                &&& names_of(st1[n as int].field_path@) == names_of(st0[n - 1].field_path@).push(
                    field_name@,
                )
                &&& items_of(final(self).items@, child_named(*parent, field_name@))
                &&& final(self).current_selection == 0
            },
            forall|root: ConfigNode|
                old(self).reflects(root) && node_at(root, names_of(old(self).top().field_path@))
                    == Some(*parent) ==> #[trigger] final(self).reflects(root),
    {
        let i = match find_field_index(&parent.fields, field_name) {
            Some(i) => i,
            None => {
                return Err(ConfigError::NotFound);
            },
        };
        proof {
            lemma_find_field(parent.fields@, field_name@);
        }
        let field = &parent.fields[i];
        if !field.meta.is_nested {
            return Err(ConfigError::NotNested);
        }
        let child = match &field.value {
            FieldValue::Nested(c) => c,
            _ => {
                return Err(ConfigError::AccessFailed);
            },
        };
        let nested_items = build_menu_items(child);
        let top = self.menu_stack.len() - 1;
        let ghost st0 = self.menu_stack@;
        let mut new_field_path = copy_names(&self.menu_stack[top].field_path);
        let name = String::from_str(field_name);
        new_field_path.push(name.clone());
        let new_level = MenuLevel {
            items: copy_items(&nested_items),
            selection: 0,
            title: name.clone(),
            field_path: new_field_path,
        };
        let sel = self.current_selection;
        self.menu_stack[top].selection = sel;
        self.menu_stack.push(new_level);
        self.breadcrumb.push(name);
        self.items = nested_items;
        self.current_selection = 0;
        proof {
            let st1 = self.menu_stack@;
            assert(st1[top as int] == MenuLevel { selection: sel, ..st0[top as int] });
            assert(names_of(st1[top + 1].field_path@) =~= names_of(st0[top as int].field_path@).push(
                field_name@,
            ));
            assert(names_of(self.breadcrumb@) =~= names_of(old(self).breadcrumb@).push(field_name@));
            if top > 0 {
                assert(st1[0] == st0[0]);
            }
            assert forall|k: int, j: int| 0 <= j < k < st1.len() implies (#[trigger] st1[k].field_path@[j])@
                == st1[j + 1].title@ by {
                if k == top + 1 && j < top {
                    assert(st1[k].field_path@[j] == st0[top as int].field_path@[j]);
                }
            }
            assert forall|k: int| 0 <= k < st1.len() implies (#[trigger] self.breadcrumb@[k])@
                == st1[k].title@ by {
                if k < top + 1 {
                    assert(self.breadcrumb@[k] == old(self).breadcrumb@[k]);
                }
            }
            assert forall|root: ConfigNode|
                old(self).reflects(root) && node_at(root, names_of(old(self).top().field_path@))
                    == Some(*parent) implies #[trigger] self.reflects(root) by {
                let p = names_of(st0[top as int].field_path@);
                lemma_field_at_push(root, p, field_name@);
                assert(field_at(*parent, seq![field_name@]) == Some(parent.fields@[i as int]));
                assert forall|k: int| 0 <= k < st1.len() implies {
                    let n = node_at(root, names_of((#[trigger] st1[k]).field_path@));
                    n is Some && items_of(st1[k].items@, n->Some_0)
                } by {
                    if k < top {
                        assert(st1[k] == st0[k]);
                    } else if k == top {
                        assert(st1[k].field_path == st0[k].field_path);
                        assert(st1[k].items == st0[k].items);
                    }
                }
            }
        }
        Ok(())
    }

    /// The address of the selected field: the names from the root to this
    /// level, then the selected row's label.
    pub fn get_current_field_path(&self) -> (r: Vec<String>)
        requires
            self.wf(),
        ensures
            names_of(r@) == self.current_path(),
    {
        let top = self.menu_stack.len() - 1;
        let mut path = copy_names(&self.menu_stack[top].field_path);
        if self.current_selection < self.items.len() {
            path.push(self.items[self.current_selection].label.clone());
        }
        assert(names_of(path@) =~= self.current_path());
        path
    }

    /// The titles of the entered levels below the root, from the top down.
    pub fn get_navigation_path(&self) -> (r: Vec<String>)
        requires
            self.wf(),
        ensures
            names_of(r@) == self.nav_path(),
            names_of(r@) == names_of(self.top().field_path@),
    {
        let mut r: Vec<String> = Vec::new();
        let mut k: usize = 1;
        while k < self.menu_stack.len()
            invariant
                self.wf(),
                1 <= k <= self.menu_stack@.len(),
                r@.len() == k - 1,
                forall|j: int| 0 <= j < k - 1 ==> (#[trigger] r@[j])@ == self.menu_stack@[j + 1].title@,
            decreases self.menu_stack@.len() - k,
        {
            r.push(self.menu_stack[k].title.clone());
            k = k + 1;
        }
        proof {
            let top = self.menu_stack@.len() - 1;
            assert(self.menu_stack@[top].field_path@.len() == top);
            assert(names_of(r@) =~= self.nav_path());
            assert forall|j: int| 0 <= j < top implies names_of(r@)[j]
                == names_of(self.top().field_path@)[j] by {
                assert((self.menu_stack@[top].field_path@[j])@ == self.menu_stack@[j + 1].title@);
            }
            assert(names_of(r@) =~= names_of(self.top().field_path@));
        }
        r
    }

    /// Selects the next row, wrapping from the last to the first.
    pub fn next(&mut self)
        requires
            old(self).wf(),
        ensures
            final(self).wf(),
            final(self).menu_stack == old(self).menu_stack,
            final(self).items == old(self).items,
            final(self).breadcrumb == old(self).breadcrumb,
            final(self).current_selection == if old(self).items@.len() == 0 {
                old(self).current_selection as int
            } else {
                (old(self).current_selection + 1) % (old(self).items@.len() as int)
            },
    {
        if self.items.len() == 0 {
            return;
        }
        self.current_selection = (self.current_selection + 1) % self.items.len();
    }

    /// Selects the previous row, wrapping from the first to the last.
    pub fn previous(&mut self)
        requires
            old(self).wf(),
        ensures
            final(self).wf(),
            final(self).menu_stack == old(self).menu_stack,
            final(self).items == old(self).items,
            final(self).breadcrumb == old(self).breadcrumb,
            final(self).current_selection == if old(self).items@.len() == 0 {
                old(self).current_selection as int
            } else if old(self).current_selection == 0 {
                old(self).items@.len() - 1
            } else {
                old(self).current_selection - 1
            },
    {
        if self.items.len() == 0 {
            return;
        }
        if self.current_selection == 0 {
            self.current_selection = self.items.len() - 1;
        } else {
            self.current_selection = self.current_selection - 1;
        }
    }

    /// The selected row, if the level has any rows.
    pub fn get_current_item(&self) -> (r: Option<&MenuItem>)
        ensures
            match r {
                Some(item) => self.has_current() && *item == self.current(),
                None => !self.has_current(),
            },
    {
        if self.current_selection < self.items.len() {
            Some(&self.items[self.current_selection])
        } else {
            None
        }
    }

    pub fn can_go_back(&self) -> (r: bool)
        ensures
            r == (self.depth() > 1),
    {
        self.menu_stack.len() > 1
    }

    /// Leaves the top level for the one below it, with the rows and the
    /// selection that it had; at the root, does nothing.
    pub fn go_back(&mut self)
        requires
            old(self).wf(),
        ensures
            final(self).wf(),
            old(self).depth() == 1 ==> *final(self) == *old(self),
            old(self).depth() > 1 ==> {
                &&& final(self).menu_stack@ == old(self).menu_stack@.drop_last()
                &&& final(self).breadcrumb@ == old(self).breadcrumb@.drop_last()
                &&& final(self).items@ == final(self).top().items@
                &&& final(self).current_selection == final(self).top().selection
            },
            forall|root: ConfigNode| old(self).reflects(root) ==> #[trigger] final(self).reflects(root),
    {
        if self.menu_stack.len() > 1 {
            self.menu_stack.pop();
            self.breadcrumb.pop();
            let top = self.menu_stack.len() - 1;
            self.items = copy_items(&self.menu_stack[top].items);
            self.current_selection = self.menu_stack[top].selection;
            proof {
                assert(self.menu_stack@ =~= old(self).menu_stack@.drop_last());
                assert(self.breadcrumb@ =~= old(self).breadcrumb@.drop_last());
            }
        }
    }

    /// The breadcrumb as one line: the titles from the root joined by " > ".
    pub fn breadcrumb_text(&self) -> (r: String)
        ensures
            r@ == joined_titles(self.breadcrumb@),
    {
        let mut r = String::new();
        let mut k: usize = 0;
        while k < self.breadcrumb.len()
            invariant
                k <= self.breadcrumb@.len(),
                r@ == joined_titles(self.breadcrumb@.take(k as int)),
            decreases self.breadcrumb@.len() - k,
        {
            if k > 0 {
                push_char(&mut r, ' ');
                push_char(&mut r, '>');
                push_char(&mut r, ' ');
            }
            r.append(self.breadcrumb[k].as_str());
            proof {
                let next = self.breadcrumb@.take(k + 1);
                assert(next.drop_last() =~= self.breadcrumb@.take(k as int));
                assert(next.last() == self.breadcrumb@[k as int]);
                assert(r@ =~= joined_titles(next));
            }
            k = k + 1;
        }
        assert(self.breadcrumb@.take(self.breadcrumb@.len() as int) =~= self.breadcrumb@);
        r
    }
}

} // verus!
