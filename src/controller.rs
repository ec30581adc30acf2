//! The editing session: what the user acts on, how an edit is committed
//! to the tree, and how the view is rebuilt after it.
use vstd::prelude::*;
use vstd::string::*;
use crate::menu::{child_named, enter_result, item_of, items_of, lemma_enter_ok, MenuState};
use crate::resolve::{
    is_prefix, level_ok, lemma_edit_keeps_tree_ok, tree_ok, apply_edit_at_path, lemma_edit_result_below, edit_leaf, edit_result, edited, field_at, find_field, lemma_edited_prefix,
    lemma_field_at_push, lemma_find_field, lemma_node_at_push, lemma_write_then_read, names_of,
    node_at, resolve_node,
};
use crate::schema::{
    edit_text, lemma_unchanged_edit_keeps_value, value_fits, false_string, false_text, parse_leaf, true_string, true_text, unset_marker,
    value_model, value_text, ConfigError, ConfigNode, FieldType, FieldValue, LeafModel, Scalar,
};
use crate::text::{push_char, strip_debug_quotes};

verus! {

/// One committed change of a field, as text before and after.
pub struct ConfigEdit {
    pub field_path: Vec<String>,
    pub old_value: String,
    pub new_value: String,
}

impl ConfigEdit {
    /// Applies the change to `target`.
    pub fn edit(&self, target: &mut String)
        ensures
            final(target)@ == self.new_value@,
    {
        *target = self.new_value.clone();
    }

    /// Takes the change back from `target`.
    pub fn undo(&self, target: &mut String)
        ensures
            final(target)@ == self.old_value@,
    {
        *target = self.old_value.clone();
    }
}

/// Which help line fits the session as it stands.
#[derive(Clone, Copy, Debug, PartialEq, Eq, Structural)]
pub enum HelpContext {
    /// An edit is open.
    Editing,
    /// The selected row is a subtree.
    Submenu,
    /// The selected row is a boolean leaf.
    Boolean,
    /// Below the root, on any other row.
    Nested,
    /// At the root, on any other row.
    Root,
}

pub struct MenuController {
    /// The tree being edited: the one place where an edit shows.
    pub config: ConfigNode,
    pub menu_state: MenuState,
    pub editing_mode: bool,
    pub edit_buffer: String,
    /// The cursor's place in the buffer, in characters.
    pub edit_cursor: usize,
}

/// The text that a toggle commits: "false" where the row shows "true", else "true".
pub open spec fn toggled_text(shown: Seq<char>) -> Seq<char> {
    if shown == true_text() {
        false_text()
    } else {
        true_text()
    }
}

/// Enters, below the root, the levels named by `nav` in turn, and stops at
/// the first that cannot be entered.
fn replay(menu: &mut MenuState, root: &ConfigNode, nav: &Vec<String>)
    requires
        old(menu).wf(),
        old(menu).reflects(*root),
        old(menu).depth() == 1,
    ensures
        final(menu).wf(),
        final(menu).reflects(*root),
        final(menu).menu_stack@[0].title == old(menu).menu_stack@[0].title,
        (forall|m: int| 0 <= m <= nav@.len() ==> #[trigger] node_at(*root, names_of(nav@).take(m)) is Some)
            ==> names_of(final(menu).top().field_path@) == names_of(nav@) && final(menu).depth()
            == nav@.len() + 1,
{
    let ghost names = names_of(nav@);
    let mut k: usize = 0;
    let mut stuck = false;
    assert(names_of(menu.top().field_path@) =~= names.take(0));
    while k < nav.len() && !stuck
        invariant
            k <= nav@.len(),
            names == names_of(nav@),
            menu.wf(),
            menu.reflects(*root),
            menu.menu_stack@[0].title == old(menu).menu_stack@[0].title,
            !stuck ==> names_of(menu.top().field_path@) == names.take(k as int) && menu.depth() == k + 1,
            stuck ==> exists|m: int| 0 <= m <= nav@.len() && !(#[trigger] node_at(*root, names.take(m)) is Some),
        decreases nav@.len() - k + (if stuck { 0int } else { 1int }),
    {
        let top = menu.menu_stack.len() - 1;
        match resolve_node(root, &menu.menu_stack[top].field_path) {
            Some(parent) => {
                proof {
                    lemma_enter_ok(*parent, names[k as int]);
                    lemma_node_at_push(*root, names.take(k as int), names[k as int]);
                    assert(names.take(k + 1) =~= names.take(k as int).push(names[k as int]));
                }
                match menu.enter_submenu_by_name(parent, nav[k].as_str()) {
                    Ok(()) => {
                        k = k + 1;
                    },
                    Err(_) => {
                        stuck = true;
                    },
                }
            },
            None => {
                stuck = true;
            },
        }
    }
    proof {
        if !stuck {
            assert(names.take(k as int) =~= names);
        }
    }
}

impl MenuController {
    pub open spec fn wf(&self) -> bool {
        &&& self.menu_state.wf()
        &&& self.menu_state.reflects(self.config)
        &&& self.menu_state.menu_stack@[0].title@ == self.config.title@
        &&& tree_ok(self.config)
        &&& self.edit_cursor <= self.edit_buffer@.len()
    }

    /// What a commit of `text` at the selected field did: its outcome is that
    /// of the write; on success the tree holds the new leaf and the view is
    /// rebuilt at the same level and row; on failure nothing changed.
    pub open spec fn committed(old: MenuController, new: MenuController, text: Seq<char>, r: Result<(), ConfigError>) -> bool {
        let p = old.menu_state.current_path();
        &&& r == edit_result(old.config, p, text)
        &&& r is Ok ==> {
            &&& edited(old.config, new.config, p, edit_leaf(old.config, p, text))
            &&& (old.menu_state.has_current() ==> {
                &&& names_of(new.menu_state.top().field_path@) == names_of(
                    old.menu_state.top().field_path@,
                )
                &&& names_of(new.menu_state.breadcrumb@) == names_of(old.menu_state.breadcrumb@)
                &&& new.menu_state.current_selection == old.menu_state.current_selection
            })
        }
        &&& r is Err ==> new.config == old.config && new.menu_state == old.menu_state
    }

    /// What a toggle did: outside an edit, on a boolean leaf, it committed
    /// the flipped text; anywhere else it did nothing.
    pub open spec fn toggle_post(old: MenuController, new: MenuController, r: Result<(), ConfigError>) -> bool {
        if old.toggle_applies() {
            &&& Self::committed(old, new, toggled_text(old.menu_state.current().value@), r)
            &&& !new.editing_mode
            &&& new.edit_buffer == old.edit_buffer
            &&& new.edit_cursor == old.edit_cursor
        } else {
            r is Ok && new == old
        }
    }

    /// What opening an edit did: on a leaf, outside an edit, it filled the
    /// buffer with the leaf's text; anywhere else it did nothing.
    pub open spec fn start_post(old: MenuController, new: MenuController) -> bool {
        &&& new.config == old.config
        &&& new.menu_state == old.menu_state
        &&& old.edit_applies() ==> {
            &&& new.editing_mode
            &&& new.edit_buffer@ == edit_text(
                old.menu_state.current().field_type,
                old.menu_state.current().value@,
            )
            &&& new.edit_cursor == new.edit_buffer@.len()
        }
        &&& !old.edit_applies() ==> new == old
    }

    /// What closing an edit did: it committed the buffer and emptied it;
    /// outside an edit it did nothing.
    pub open spec fn finish_post(old: MenuController, new: MenuController, r: Result<(), ConfigError>) -> bool {
        &&& !old.editing_mode ==> r is Ok && new == old
        &&& old.editing_mode ==> {
            &&& Self::committed(old, new, old.edit_buffer@, r)
            &&& !new.editing_mode
            &&& new.edit_buffer@.len() == 0
            &&& new.edit_cursor == 0
        }
    }

    pub open spec fn toggle_applies(&self) -> bool {
        let item = self.menu_state.current();
        &&& !self.editing_mode
        &&& self.menu_state.has_current()
        &&& item.field_type == FieldType::Bool
        &&& !item.is_submenu
        &&& !item.is_vec_container
    }

    pub open spec fn edit_applies(&self) -> bool {
        let item = self.menu_state.current();
        &&& !self.editing_mode
        &&& self.menu_state.has_current()
        &&& !item.is_submenu
        &&& !item.is_vec_container
    }

    /// A session over `config`, at its root level, not editing.
    pub fn new(config: ConfigNode) -> (r: MenuController)
        requires
            tree_ok(config),
        ensures
            r.wf(),
            r.config == config,
            r.menu_state.depth() == 1,
            r.menu_state.current_selection == 0,
            items_of(r.menu_state.items@, config),
            !r.editing_mode,
            r.edit_buffer@.len() == 0,
    {
        let menu_state = MenuState::new(&config);
        MenuController {
            config,
            menu_state,
            editing_mode: false,
            edit_buffer: String::new(),
            edit_cursor: 0,
        }
    }

    /// Writes `text` at the selected field; on success rebuilds the view from
    /// the tree, enters again by name the levels that were open, and selects
    /// the row that was selected.
    fn commit(&mut self, text: &str) -> (r: Result<(), ConfigError>)
        requires
            old(self).wf(),
        ensures
            final(self).wf(),
            Self::committed(*old(self), *final(self), text@, r),
            final(self).editing_mode == old(self).editing_mode,
            final(self).edit_buffer == old(self).edit_buffer,
            final(self).edit_cursor == old(self).edit_cursor,
    {
        let ghost old_menu = self.menu_state;
        let ghost old_config = self.config;
        let path = self.menu_state.get_current_field_path();
        let r = apply_edit_at_path(&mut self.config, &path, text);
        if r.is_ok() {
            let ghost p = names_of(path@);
            let nav = self.menu_state.get_navigation_path();
            let sel = self.menu_state.current_selection;
            let depth = self.menu_state.menu_stack.len();
            self.menu_state = MenuState::new(&self.config);
            proof {
                let leaf = edit_leaf(old_config, p, text@);
                let navs = names_of(nav@);
                lemma_edit_keeps_tree_ok(old_config, self.config, p, leaf);
                if old_menu.has_current() {
                    assert(p =~= navs.push(old_menu.current().label@));
                    assert forall|m: int| 0 <= m <= nav@.len() implies #[trigger] node_at(
                        self.config,
                        names_of(nav@).take(m),
                    ) is Some by {
                        lemma_edited_prefix(old_config, self.config, p, leaf, m);
                        assert(p.take(m) =~= navs.take(m));
                    }
                }
            }
            replay(&mut self.menu_state, &self.config, &nav);
            if self.menu_state.menu_stack.len() == depth && sel < self.menu_state.items.len() {
                self.menu_state.current_selection = sel;
            }
            proof {
                let leaf = edit_leaf(old_config, p, text@);
                let navs = names_of(nav@);
                if old_menu.has_current() {
                    let m = navs.len() as int;
                    lemma_edited_prefix(old_config, self.config, p, leaf, m);
                    assert(p.take(m) =~= navs);
                    let top = old_menu.menu_stack@.len() - 1;
                    assert(old_menu.menu_stack@[top] == old_menu.top());
                    let new_menu = self.menu_state;
                    let ntop = new_menu.menu_stack@.len() - 1;
                    assert(new_menu.menu_stack@[ntop] == new_menu.top());
                    assert(new_menu.menu_stack@[ntop].field_path@.len() == ntop);
                    assert(old_menu.menu_stack@[top].field_path@.len() == top);
                    assert(ntop == top);
                    assert forall|k: int| 0 <= k < old_menu.breadcrumb@.len() implies names_of(
                        new_menu.breadcrumb@,
                    )[k] == names_of(old_menu.breadcrumb@)[k] by {
                        assert(new_menu.breadcrumb@[k]@ == new_menu.menu_stack@[k].title@);
                        assert(old_menu.breadcrumb@[k]@ == old_menu.menu_stack@[k].title@);
                        if k > 0 {
                            assert((new_menu.menu_stack@[ntop].field_path@[k - 1])@
                                == new_menu.menu_stack@[k].title@);
                            assert((old_menu.menu_stack@[top].field_path@[k - 1])@
                                == old_menu.menu_stack@[k].title@);
                            assert(names_of(new_menu.top().field_path@)[k - 1] == names_of(
                                old_menu.top().field_path@,
                            )[k - 1]);
                        }
                    }
                    assert(names_of(new_menu.breadcrumb@) =~= names_of(old_menu.breadcrumb@));
                }
            }
        }
        r
    }

    /// Opens an edit of the selected leaf: the buffer holds its text (a
    /// string without its quotes) and the cursor stands at its end. Does
    /// nothing while editing, on a subtree, on a list, or on an empty level.
    pub fn start_editing(&mut self)
        requires
            old(self).wf(),
        ensures
            final(self).wf(),
            Self::start_post(*old(self), *final(self)),
    {
        if self.editing_mode {
            return;
        }
        match self.menu_state.get_current_item() {
            Some(item) => {
                if item.is_submenu || item.is_vec_container {
                    return;
                }
                let buffer = if item.field_type == FieldType::String {
                    strip_debug_quotes(item.value.as_str())
                } else {
                    item.value.clone()
                };
                self.edit_cursor = buffer.as_str().unicode_len();
                self.edit_buffer = buffer;
                self.editing_mode = true;
            },
            None => {},
        }
    }

    /// Flips the selected boolean leaf and commits at once, without an edit.
    pub fn toggle_boolean(&mut self) -> (r: Result<(), ConfigError>)
        requires
            old(self).wf(),
        ensures
            final(self).wf(),
            Self::toggle_post(*old(self), *final(self), r),
    {
        if self.editing_mode {
            return Ok(());
        }
        let text = match self.menu_state.get_current_item() {
            Some(item) => {
                if item.field_type != FieldType::Bool || item.is_submenu || item.is_vec_container {
                    return Ok(());
                }
                let t = true_string();
                if item.value == t {
                    false_string()
                } else {
                    t
                }
            },
            None => {
                return Ok(());
            },
        };
        self.commit(text.as_str())
    }

    /// Commits the buffer to the selected field and closes the edit, whatever
    /// the outcome. Outside an edit, does nothing.
    pub fn finish_editing(&mut self) -> (r: Result<(), ConfigError>)
        requires
            old(self).wf(),
        ensures
            final(self).wf(),
            Self::finish_post(*old(self), *final(self), r),
    {
        if !self.editing_mode {
            return Ok(());
        }
        let buffer = self.edit_buffer.clone();
        let r = self.commit(buffer.as_str());
        self.editing_mode = false;
        self.edit_buffer = String::new();
        self.edit_cursor = 0;
        r
    }

    /// Closes the edit without touching the tree.
    pub fn cancel_editing(&mut self)
        requires
            old(self).wf(),
        ensures
            final(self).wf(),
            final(self).config == old(self).config,
            final(self).menu_state == old(self).menu_state,
            !final(self).editing_mode,
            final(self).edit_buffer@.len() == 0,
            final(self).edit_cursor == 0,
    {
        self.editing_mode = false;
        self.edit_buffer = String::new();
        self.edit_cursor = 0;
    }

    /// Enters the subtree of the selected row. Fails with `NotNested` on a
    /// row that is not a subtree, and with `NotFound` on an empty level; on
    /// any failure nothing changes.
    pub fn enter_submenu(&mut self) -> (r: Result<(), ConfigError>)
        requires
            old(self).wf(),
        ensures
            final(self).wf(),
            final(self).config == old(self).config,
            !old(self).menu_state.has_current() ==> r == Err::<(), ConfigError>(ConfigError::NotFound),
            old(self).menu_state.has_current() && !old(self).menu_state.current().is_submenu ==> r
                == Err::<(), ConfigError>(ConfigError::NotNested),
            r is Err ==> *final(self) == *old(self),
            r is Ok ==> {
                &&& final(self).menu_state.depth() == old(self).menu_state.depth() + 1
                &&& final(self).menu_state.top().title@ == old(self).menu_state.current().label@
                &&& final(self).menu_state.current_selection == 0
            },
            old(self).menu_state.has_current() && old(self).menu_state.current().is_submenu ==> {
                let parent = node_at(
                    old(self).config,
                    names_of(old(self).menu_state.top().field_path@),
                )->Some_0;
                let name = old(self).menu_state.current().label@;
                &&& r == enter_result(parent, name)
                &&& r is Ok ==> items_of(final(self).menu_state.items@, child_named(parent, name))
                    && names_of(final(self).menu_state.top().field_path@) == names_of(
                    old(self).menu_state.top().field_path@,
                ).push(name)
                &&& r is Ok ==> names_of(final(self).menu_state.breadcrumb@) == names_of(
                    old(self).menu_state.breadcrumb@,
                ).push(name)
            },
    {
        let label = match self.menu_state.get_current_item() {
            Some(item) => {
                if !item.is_submenu {
                    return Err(ConfigError::NotNested);
                }
                item.label.clone()
            },
            None => {
                return Err(ConfigError::NotFound);
            },
        };
        let top = self.menu_state.menu_stack.len() - 1;
        assert(self.menu_state.menu_stack@[top as int] == self.menu_state.top());
        match resolve_node(&self.config, &self.menu_state.menu_stack[top].field_path) {
            Some(parent) => self.menu_state.enter_submenu_by_name(parent, label.as_str()),
            None => Err(ConfigError::AccessFailed),
        }
    }

    pub fn is_current_submenu(&self) -> (r: bool)
        ensures
            r == (self.menu_state.has_current() && self.menu_state.current().is_submenu),
    {
        match self.menu_state.get_current_item() {
            Some(item) => item.is_submenu,
            None => false,
        }
    }

    pub fn is_current_boolean(&self) -> (r: bool)
        ensures
            r == (self.menu_state.has_current() && self.menu_state.current().field_type
                == FieldType::Bool && !self.menu_state.current().is_submenu),
    {
        match self.menu_state.get_current_item() {
            Some(item) => item.field_type == FieldType::Bool && !item.is_submenu,
            None => false,
        }
    }

    /// Which help line to show: editing first, then the kind of the selected
    /// row, then whether there is a level to go back to.
    pub fn help_context(&self) -> (r: HelpContext)
        ensures
            r == if self.editing_mode {
                HelpContext::Editing
            } else if self.menu_state.has_current() && self.menu_state.current().is_submenu {
                HelpContext::Submenu
            } else if self.menu_state.has_current() && self.menu_state.current().field_type
                == FieldType::Bool && !self.menu_state.current().is_submenu {
                HelpContext::Boolean
            } else if self.menu_state.depth() > 1 {
                HelpContext::Nested
            } else {
                HelpContext::Root
            },
    {
        if self.editing_mode {
            HelpContext::Editing
        } else if self.is_current_submenu() {
            HelpContext::Submenu
        } else if self.is_current_boolean() {
            HelpContext::Boolean
        } else if self.menu_state.can_go_back() {
            HelpContext::Nested
        } else {
            HelpContext::Root
        }
    }

    /// Inserts `c` at the cursor and moves the cursor past it.
    pub fn handle_edit_input(&mut self, c: char)
        requires
            old(self).wf(),
            old(self).edit_buffer@.len() < usize::MAX,
        ensures
            final(self).wf(),
            final(self).edit_buffer@ == old(self).edit_buffer@.insert(old(self).edit_cursor as int, c),
            final(self).edit_cursor == old(self).edit_cursor + 1,
            final(self).config == old(self).config,
            final(self).menu_state == old(self).menu_state,
            final(self).editing_mode == old(self).editing_mode,
    {
        let len = self.edit_buffer.as_str().unicode_len();
        let mut s = String::from_str(self.edit_buffer.as_str().substring_char(0, self.edit_cursor));
        push_char(&mut s, c);
        s.append(self.edit_buffer.as_str().substring_char(self.edit_cursor, len));
        assert(s@ =~= old(self).edit_buffer@.insert(old(self).edit_cursor as int, c));
        self.edit_buffer = s;
        self.edit_cursor = self.edit_cursor + 1;
    }

    /// Removes the character before the cursor, if any, and moves the cursor back.
    pub fn handle_backspace(&mut self)
        requires
            old(self).wf(),
        ensures
            final(self).wf(),
            old(self).edit_cursor > 0 ==> final(self).edit_buffer@ == old(self).edit_buffer@.remove(
                old(self).edit_cursor - 1,
            ) && final(self).edit_cursor == old(self).edit_cursor - 1,
            old(self).edit_cursor == 0 ==> *final(self) == *old(self),
            final(self).config == old(self).config,
            final(self).menu_state == old(self).menu_state,
            final(self).editing_mode == old(self).editing_mode,
    {
        if self.edit_cursor > 0 {
            self.remove_at(self.edit_cursor - 1);
            self.edit_cursor = self.edit_cursor - 1;
        }
    }

    /// Removes the character at the cursor, if any.
    pub fn handle_delete(&mut self)
        requires
            old(self).wf(),
        ensures
            final(self).wf(),
            old(self).edit_cursor < old(self).edit_buffer@.len() ==> final(self).edit_buffer@
                == old(self).edit_buffer@.remove(old(self).edit_cursor as int),
            old(self).edit_cursor >= old(self).edit_buffer@.len() ==> *final(self) == *old(self),
            final(self).edit_cursor == old(self).edit_cursor,
            final(self).config == old(self).config,
            final(self).menu_state == old(self).menu_state,
            final(self).editing_mode == old(self).editing_mode,
    {
        if self.edit_cursor < self.edit_buffer.as_str().unicode_len() {
            self.remove_at(self.edit_cursor);
        }
    }

    fn remove_at(&mut self, i: usize)
        requires
            i < old(self).edit_buffer@.len(),
        ensures
            final(self).edit_buffer@ == old(self).edit_buffer@.remove(i as int),
            final(self).edit_cursor == old(self).edit_cursor,
            final(self).config == old(self).config,
            final(self).menu_state == old(self).menu_state,
            final(self).editing_mode == old(self).editing_mode,
    {
        let len = self.edit_buffer.as_str().unicode_len();
        let mut s = String::from_str(self.edit_buffer.as_str().substring_char(0, i));
        s.append(self.edit_buffer.as_str().substring_char(i + 1, len));
        assert(s@ =~= old(self).edit_buffer@.remove(i as int));
        self.edit_buffer = s;
    }

    pub fn move_cursor_left(&mut self)
        requires
            old(self).wf(),
        ensures
            final(self).wf(),
            final(self).edit_cursor == if old(self).edit_cursor > 0 {
                old(self).edit_cursor - 1
            } else {
                0
            },
            final(self).edit_buffer == old(self).edit_buffer,
            final(self).config == old(self).config,
            final(self).menu_state == old(self).menu_state,
            final(self).editing_mode == old(self).editing_mode,
    {
        if self.edit_cursor > 0 {
            self.edit_cursor = self.edit_cursor - 1;
        }
    }

    pub fn move_cursor_right(&mut self)
        requires
            old(self).wf(),
        ensures
            final(self).wf(),
            final(self).edit_cursor == if old(self).edit_cursor < old(self).edit_buffer@.len() {
                old(self).edit_cursor + 1
            } else {
                old(self).edit_cursor as int
            },
            final(self).edit_buffer == old(self).edit_buffer,
            final(self).config == old(self).config,
            final(self).menu_state == old(self).menu_state,
            final(self).editing_mode == old(self).editing_mode,
    {
        if self.edit_cursor < self.edit_buffer.as_str().unicode_len() {
            self.edit_cursor = self.edit_cursor + 1;
        }
    }
}

/// Toggling a boolean leaf whose row shows "true" commits "false" to it; a
/// second toggle, on the row that the rebuilt view selects, commits "true"
/// back, so that the leaf and every field not above it are as they were at
/// the start; and no edit is opened on the way.
pub proof fn lemma_toggle_twice(
    c0: MenuController,
    c1: MenuController,
    c2: MenuController,
    r1: Result<(), ConfigError>,
    r2: Result<(), ConfigError>,
)
    requires
        c0.wf(),
        c0.toggle_applies(),
        c0.menu_state.current().value@ == true_text(),
        MenuController::toggle_post(c0, c1, r1),
        r1 is Ok,
        c1.wf(),
        MenuController::toggle_post(c1, c2, r2),
        r2 is Ok,
    ensures
        ({
            let p = c0.menu_state.current_path();
            &&& value_model(field_at(c1.config, p)->Some_0.value) == Some(LeafModel::Bool(false))
            &&& c1.menu_state.current_path() == p
            &&& c1.menu_state.current().value@ == false_text()
            &&& value_model(field_at(c2.config, p)->Some_0.value) == Some(LeafModel::Bool(true))
            &&& field_at(c2.config, p) == field_at(c0.config, p)
            &&& forall|q: Seq<Seq<char>>| !is_prefix(q, p) ==> #[trigger] field_at(c2.config, q)
                == field_at(c0.config, q)
            &&& !c1.editing_mode
            &&& !c2.editing_mode
        }),
{
    let m0 = c0.menu_state;
    let nav = names_of(m0.top().field_path@);
    let label = m0.current().label@;
    let sel = m0.current_selection as int;
    let p = m0.current_path();
    let top = m0.menu_stack@.len() - 1;
    assert(m0.menu_stack@[top] == m0.top());
    let a = node_at(c0.config, nav)->Some_0;
    assert(level_ok(a));
    assert(item_of(m0.items@[sel], a.fields@[sel]));
    lemma_find_field(a.fields@, label);
    let k = find_field(a.fields@, label);
    if k < 0 || sel < k {
        assert(a.fields@[sel].meta.name@ != label);
    }
    if 0 <= k < sel {
        assert(a.fields@[k].meta.name@ != a.fields@[sel].meta.name@);
    }
    assert(k == sel);
    lemma_field_at_push(c0.config, nav, label);
    assert(field_at(a, seq![label]) == Some(a.fields@[sel]));
    assert(false_text()[0] != unset_marker()[0]);
    assert(true_text()[0] != unset_marker()[0]);
    assert(true_text()[0] != false_text()[0]);
    let leaf1 = edit_leaf(c0.config, p, false_text());
    assert(leaf1 == LeafModel::Bool(false));
    lemma_write_then_read(c0.config, c1.config, p, leaf1);

    let m1 = c1.menu_state;
    let n = nav.len() as int;
    lemma_edited_prefix(c0.config, c1.config, p, leaf1, n);
    assert(p.take(n) =~= nav);
    assert(p.skip(n) =~= seq![label]);
    let b = node_at(c1.config, nav)->Some_0;
    let top1 = m1.menu_stack@.len() - 1;
    assert(m1.menu_stack@[top1] == m1.top());
    assert(item_of(m1.items@[sel], b.fields@[sel]));
    assert(b.fields@[sel].value == FieldValue::Leaf(Scalar::Bool(false)));
    assert(value_text(b.fields@[sel].value) == false_text());
    assert(c1.toggle_applies());
    assert(m1.current_path() == p);
    let leaf2 = edit_leaf(c1.config, p, true_text());
    assert(leaf2 == LeafModel::Bool(true));
    lemma_write_then_read(c1.config, c2.config, p, leaf2);
    assert forall|q: Seq<Seq<char>>| !is_prefix(q, p) implies #[trigger] field_at(c2.config, q)
        == field_at(c0.config, q) by {
        assert(field_at(c1.config, q) == field_at(c0.config, q));
    }
    let f0 = a.fields@[sel];
    assert(value_fits(f0.meta, f0.value));
    assert(f0.value == FieldValue::Leaf(Scalar::Bool(true))) by {
        assert(value_text(f0.value) == true_text());
        if f0.value is Unset {
            assert(unset_marker()[0] != true_text()[0]);
        }
    }
    let f2 = field_at(c2.config, p)->Some_0;
    assert(f2.value == FieldValue::Leaf(Scalar::Bool(true)));
    assert(f2 == f0);
}

/// Opening an edit of a leaf and committing its buffer unchanged succeeds
/// and leaves the leaf holding what it held, for every type a leaf can hold.
pub proof fn lemma_unchanged_edit(
    c0: MenuController,
    c1: MenuController,
    c2: MenuController,
    r: Result<(), ConfigError>,
)
    requires
        c0.wf(),
        c0.edit_applies(),
        MenuController::start_post(c0, c1),
        MenuController::finish_post(c1, c2, r),
    ensures
        r is Ok,
        value_model(field_at(c2.config, c0.menu_state.current_path())->Some_0.value) == value_model(
            field_at(c0.config, c0.menu_state.current_path())->Some_0.value,
        ),
{
    let m0 = c0.menu_state;
    let nav = names_of(m0.top().field_path@);
    let label = m0.current().label@;
    let sel = m0.current_selection as int;
    let p = m0.current_path();
    let top = m0.menu_stack@.len() - 1;
    assert(m0.menu_stack@[top] == m0.top());
    let a = node_at(c0.config, nav)->Some_0;
    assert(level_ok(a));
    assert(item_of(m0.items@[sel], a.fields@[sel]));
    lemma_find_field(a.fields@, label);
    let k = find_field(a.fields@, label);
    if k < 0 || sel < k {
        assert(a.fields@[sel].meta.name@ != label);
    }
    if 0 <= k < sel {
        assert(a.fields@[k].meta.name@ != a.fields@[sel].meta.name@);
    }
    assert(k == sel);
    lemma_field_at_push(c0.config, nav, label);
    assert(field_at(a, seq![label]) == Some(a.fields@[sel]));
    let f = a.fields@[sel];
    lemma_unchanged_edit_keeps_value(f);
    let buffer = c1.edit_buffer@;
    assert(buffer == edit_text(f.meta.field_type, value_text(f.value)));
    lemma_edit_result_below(c0.config, nav, label, buffer);
    assert(seq![label].drop_first() =~= Seq::<Seq<char>>::empty());
    assert(r == edit_result(a, seq![label], buffer));
    let leaf = edit_leaf(c0.config, p, buffer);
    lemma_write_then_read(c0.config, c2.config, p, leaf);
}

} // verus!
