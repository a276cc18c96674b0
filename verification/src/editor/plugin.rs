//! The selection of entities and the undoable history of edits.
use flax::Entity;
use vstd::prelude::*;

use crate::update_layer::Plugin;
use super::tools::physics_tool::PHYSICS_TOOL_PLUGIN_KEY;
use super::tools::transform_tool::TRANSFORM_TOOL_PLUGIN_KEY;
use super::tools_controller::TOOLS_CONTROLLER_PLUGIN_KEY;

verus! {

#[verifier::external_type_specification]
#[verifier::external_body]
pub struct ExEntity(Entity);

/// Calls `<flax::Entity as PartialEq>::eq`, derived over the entity's
/// fields: two entities compare equal exactly when they are the same value.
#[verifier::external_body]
fn same_entity(a: &Entity, b: &Entity) -> (r: bool)
    ensures
        r == (*a == *b),
{
    *a == *b
}

/// `s` without any occurrence of `id`, the others in their order.
pub open spec fn without(s: Seq<Entity>, id: Entity) -> Seq<Entity>
    decreases s.len(),
{
    if s.len() == 0 {
        s
    } else {
        let rest = without(s.drop_last(), id);
        if s.last() == id {
            rest
        } else {
            rest.push(s.last())
        }
    }
}

/// The selected entities, in the order they were selected.
#[derive(Debug, PartialEq, Eq)]
pub struct Selection {
    entities: Vec<Entity>,
}

impl View for Selection {
    type V = Seq<Entity>;

    closed spec fn view(&self) -> Seq<Entity> {
        self.entities@
    }
}

/// A copy of `entities`.
fn copy_entities(entities: &Vec<Entity>) -> (r: Vec<Entity>)
    ensures
        r@ == entities@,
{
    let mut out: Vec<Entity> = Vec::new();
    let n = entities.len();
    for i in 0..n
        invariant
            n == entities@.len(),
            out@ == entities@.take(i as int),
    {
        out.push(entities[i]);
        assert(out@ == entities@.take(i + 1));
    }
    assert(entities@.take(n as int) == entities@);
    out
}

/// `entities` without any occurrence of `id`.
fn remove_entity(entities: &Vec<Entity>, id: &Entity) -> (r: Vec<Entity>)
    ensures
        r@ == without(entities@, *id),
{
    let mut out: Vec<Entity> = Vec::new();
    let n = entities.len();
    for i in 0..n
        invariant
            n == entities@.len(),
            out@ == without(entities@.take(i as int), *id),
    {
        let ghost t = entities@.take(i + 1);
        assert(t.drop_last() == entities@.take(i as int));
        if !same_entity(&entities[i], id) {
            out.push(entities[i]);
        }
    }
    assert(entities@.take(n as int) == entities@);
    out
}

impl Selection {
    pub fn new(entities: Vec<Entity>) -> (s: Self)
        ensures
            s@ == entities@,
    {
        Selection { entities }
    }

    pub fn single(entity: Entity) -> (s: Self)
        ensures
            s@ == seq![entity],
    {
        let mut entities: Vec<Entity> = Vec::new();
        entities.push(entity);
        Selection { entities }
    }

    pub fn entities(&self) -> (r: &[Entity])
        ensures
            r@ == self@,
    {
        self.entities.as_slice()
    }

    /// The selection with `id` moved, or added, to the end.
    pub fn append(&self, id: Entity) -> (s: Selection)
        ensures
            s@ == without(self@, id).push(id),
    {
        let mut entities = remove_entity(&self.entities, &id);
        entities.push(id);
        Selection { entities }
    }

    /// The selection with `id` taken out if it was selected, and appended
    /// if it was not.
    pub fn append_toggle(&self, id: Entity) -> (s: Selection)
        ensures
            self@.contains(id) ==> s@ == without(self@, id),
            !self@.contains(id) ==> s@ == self@.push(id),
    {
        let mut found = false;
        let n = self.entities.len();
        for i in 0..n
            invariant
                n == self@.len(),
                found <==> exists|j: int| 0 <= j < i && self@[j] == id,
        {
            if same_entity(&self.entities[i], &id) {
                found = true;
            }
        }
        if found {
            Selection { entities: remove_entity(&self.entities, &id) }
        } else {
            proof {
                lemma_without_absent(self@, id);
            }
            self.append(id)
        }
    }
}

impl Clone for Selection {
    fn clone(&self) -> (s: Self)
        ensures
            s@ == self@,
    {
        Selection { entities: copy_entities(&self.entities) }
    }
}

impl Default for Selection {
    fn default() -> (s: Self)
        ensures
            s@ == Seq::<Entity>::empty(),
    {
        Selection { entities: Vec::new() }
    }
}

/// Taking out an entity that does not occur changes nothing.
pub proof fn lemma_without_absent(s: Seq<Entity>, id: Entity)
    requires
        !s.contains(id),
    ensures
        without(s, id) == s,
    decreases s.len(),
{
    if s.len() > 0 {
        assert(!s.drop_last().contains(id)) by {
            if s.drop_last().contains(id) {
                let j = choose|j: int| 0 <= j < s.drop_last().len() && s.drop_last()[j] == id;
                assert(s[j] == id);
            }
        }
        lemma_without_absent(s.drop_last(), id);
        assert(s.drop_last().push(s.last()) == s);
    }
}

/// An entity occurs in a sequence with one more element when it occurs in
/// the shorter one or is that element.
proof fn lemma_contains_push(s: Seq<Entity>, a: Entity, x: Entity)
    ensures
        s.push(a).contains(x) <==> (s.contains(x) || x == a),
{
    if s.push(a).contains(x) {
        let j = choose|j: int| 0 <= j < s.push(a).len() && s.push(a)[j] == x;
        if j < s.len() {
            assert(s[j] == x);
        }
    }
    if s.contains(x) {
        let j = choose|j: int| 0 <= j < s.len() && s[j] == x;
        assert(s.push(a)[j] == x);
    }
    if x == a {
        assert(s.push(a)[s.len() as int] == x);
    }
}

/// What remains after taking out `id` is what was there, but `id`.
pub proof fn lemma_without_contains(s: Seq<Entity>, id: Entity, x: Entity)
    ensures
        without(s, id).contains(x) <==> (x != id && s.contains(x)),
    decreases s.len(),
{
    if s.len() > 0 {
        let d = s.drop_last();
        let l = s.last();
        lemma_without_contains(d, id, x);
        assert(d.push(l) == s);
        lemma_contains_push(d, l, x);
        if l != id {
            lemma_contains_push(without(d, id), l, x);
        }
    }
}

/// Toggling an entity flips whether it is selected and leaves every other
/// entity as it was.
pub proof fn lemma_toggle_membership(s: Seq<Entity>, id: Entity, toggled: Seq<Entity>, x: Entity)
    requires
        s.contains(id) ==> toggled == without(s, id),
        !s.contains(id) ==> toggled == s.push(id),
    ensures
        toggled.contains(x) <==> (if x == id { !s.contains(id) } else { s.contains(x) }),
{
    lemma_without_contains(s, id, x);
    if !s.contains(id) {
        if x == id {
            assert(toggled[s.len() as int] == id);
        } else if toggled.contains(x) {
            let j = choose|j: int| 0 <= j < toggled.len() && toggled[j] == x;
            assert(s[j] == x);
        } else if s.contains(x) {
            let j = choose|j: int| 0 <= j < s.len() && s[j] == x;
            assert(toggled[j] == x);
        }
    }
}

/// Toggling an entity that is not selected twice gives back the selection.
pub proof fn lemma_toggle_twice(s: Seq<Entity>, id: Entity)
    requires
        !s.contains(id),
    ensures
        without(s.push(id), id) == s,
{
    lemma_without_absent(s, id);
    assert(s.push(id).drop_last() == s);
}

/// Appending an element that does not occur keeps a sequence free of
/// repeats.
proof fn lemma_push_distinct(s: Seq<Entity>, x: Entity)
    requires
        s.no_duplicates(),
        !s.contains(x),
    ensures
        s.push(x).no_duplicates(),
{
    let t = s.push(x);
    assert forall|i: int, j: int| 0 <= i < t.len() && 0 <= j < t.len() && i != j implies t[i] != t[j] by {
        if i == s.len() {
            assert(s[j] == t[j]);
        } else if j == s.len() {
            assert(s[i] == t[i]);
        } else {
            assert(s[i] == t[i] && s[j] == t[j]);
        }
    }
}

/// Taking out an entity keeps a sequence free of repeats.
proof fn lemma_without_distinct(s: Seq<Entity>, id: Entity)
    requires
        s.no_duplicates(),
    ensures
        without(s, id).no_duplicates(),
    decreases s.len(),
{
    if s.len() > 0 {
        let d = s.drop_last();
        let l = s.last();
        assert(d.no_duplicates()) by {
            assert forall|i: int, j: int| 0 <= i < d.len() && 0 <= j < d.len() && i != j implies d[i] != d[j] by {
                assert(d[i] == s[i] && d[j] == s[j]);
            }
        }
        lemma_without_distinct(d, id);
        if l != id {
            lemma_without_contains(d, id, l);
            if d.contains(l) {
                let j = choose|j: int| 0 <= j < d.len() && d[j] == l;
                assert(s[j] == s[s.len() - 1]);
            }
            lemma_push_distinct(without(d, id), l);
        }
    }
}

/// Appending to a selection without repeats, or toggling an entity in it,
/// gives a selection without repeats.
pub proof fn lemma_selection_stays_distinct(s: Seq<Entity>, id: Entity)
    requires
        s.no_duplicates(),
    ensures
        without(s, id).push(id).no_duplicates(),
        without(s, id).no_duplicates(),
        !s.contains(id) ==> s.push(id).no_duplicates(),
{
    lemma_without_distinct(s, id);
    lemma_without_contains(s, id, id);
    lemma_push_distinct(without(s, id), id);
    if !s.contains(id) {
        lemma_push_distinct(s, id);
    }
}

/// Replaces the selection, remembering the one it replaced.
pub struct SetSelection {
    pub new_selection: Selection,
}

impl Clone for SetSelection {
    fn clone(&self) -> (s: Self)
        ensures
            s.new_selection@ == self.new_selection@,
    {
        SetSelection { new_selection: self.new_selection.clone() }
    }
}

impl SetSelection {
    /// Makes `new_selection` the current selection, and returns the command
    /// that restores the selection it replaced.
    pub fn execute(&self, current: &mut Selection) -> (undo: SetSelection)
        ensures
            final(current)@ == self.new_selection@,
            undo.new_selection@ == old(current)@,
    {
        let previous = current.clone();
        *current = self.new_selection.clone();
        SetSelection { new_selection: previous }
    }
}

/// Transactional commands for performing an action on a world of type `W`.
pub trait CommandExt<W>: Sized {
    type Error;

    /// Whether the command states, in [`succeeds`](CommandExt::succeeds),
    /// when it can be performed. Commands that do not say nothing of it.
    open spec fn obeys_command_spec() -> bool {
        false
    }

    /// Performing the command can turn the world `before` into `after`, with
    /// `undo` the command that turns it back. A command that says nothing of
    /// its effect allows any.
    open spec fn performs(&self, before: W, after: W, undo: Self) -> bool {
        true
    }

    /// The command can be performed on the world `before`.
    open spec fn succeeds(&self, before: W) -> bool {
        true
    }

    /// Performs the command on `world` and returns the command that undoes
    /// it.
    fn execute_dyn(&self, world: &mut W) -> (r: Result<Self, Self::Error>)
        ensures
            Self::obeys_command_spec() ==> (r is Ok <==> self.succeeds(*old(world))),
            r matches Ok(undo) ==> self.performs(*old(world), *final(world), undo);
}

impl CommandExt<Selection> for SetSelection {
    type Error = ();

    open spec fn obeys_command_spec() -> bool {
        true
    }

    open spec fn performs(&self, before: Selection, after: Selection, undo: SetSelection) -> bool {
        after@ == self.new_selection@ && undo.new_selection@ == before@
    }

    open spec fn succeeds(&self, before: Selection) -> bool {
        true
    }

    fn execute_dyn(&self, world: &mut Selection) -> (r: Result<SetSelection, ()>)
        ensures
            r is Ok,
    {
        Ok(self.execute(world))
    }
}

/// Undoing a change of selection gives back the selection it replaced, and
/// the command that redoes it makes the same change again.
pub proof fn lemma_undo_restores_selection(
    command: SetSelection,
    before: Selection,
    after: Selection,
    undo: SetSelection,
    restored: Selection,
    redo: SetSelection,
)
    requires
        command.performs(before, after, undo),
        undo.performs(after, restored, redo),
    ensures
        restored@ == before@,
        redo.new_selection@ == command.new_selection@,
{
}

/// The commands that can be undone, most recent last, and those that can be
/// redone, most recently undone last.
pub struct HistoryManager<C> {
    command_stack: Vec<C>,
    redo_stack: Vec<C>,
}

impl<C> HistoryManager<C> {
    /// The commands undoing the edits made, the most recent last.
    pub closed spec fn undos(&self) -> Seq<C> {
        self.command_stack@
    }

    /// The commands redoing the edits undone, the most recently undone last.
    pub closed spec fn redos(&self) -> Seq<C> {
        self.redo_stack@
    }

    pub fn new() -> (h: Self)
        ensures
            h.undos() == Seq::<C>::empty(),
            h.redos() == Seq::<C>::empty(),
    {
        HistoryManager { command_stack: Vec::new(), redo_stack: Vec::new() }
    }

    /// Performs `command` and records how to undo it. A new edit starts a
    /// new line of history: nothing undone before can be redone after it.
    pub fn execute<W>(&mut self, world: &mut W, command: C) -> (r: Result<(), C::Error>)
        where C: CommandExt<W>,
        ensures
            r is Ok ==> exists|undo: C| final(self).undos() == old(self).undos().push(undo)
                && #[trigger] command.performs(*old(world), *final(world), undo),
            C::obeys_command_spec() ==> (r is Ok <==> command.succeeds(*old(world))),
            r is Ok ==> final(self).redos() == Seq::<C>::empty(),
            r is Err ==> final(self).undos() == old(self).undos() && final(self).redos() == old(self).redos(),
    {
        match command.execute_dyn(world) {
            Ok(undo_command) => {
                self.command_stack.push(undo_command);
                assert(self.undos() == old(self).undos().push(undo_command));
                self.redo_stack.clear();
                Ok(())
            },
            Err(e) => Err(e),
        }
    }

    /// Undoes the most recent edit, if any, and records how to redo it. A
    /// command that fails is dropped from the history.
    pub fn undo<W>(&mut self, world: &mut W) -> (r: Result<(), C::Error>)
        where C: CommandExt<W>,
        ensures
            old(self).undos().len() == 0 ==> r is Ok && final(self).undos() == old(self).undos()
                && final(self).redos() == old(self).redos() && *final(world) == *old(world),
            old(self).undos().len() > 0 ==> final(self).undos() == old(self).undos().drop_last(),
            old(self).undos().len() > 0 && C::obeys_command_spec() ==> (r is Ok <==> old(self).undos().last().succeeds(
                *old(world),
            )),
            old(self).undos().len() > 0 && r is Ok ==> exists|redo: C| final(self).redos() == old(self).redos().push(redo)
                && #[trigger] old(self).undos().last().performs(*old(world), *final(world), redo),
            r is Err ==> final(self).redos() == old(self).redos(),
    {
        match self.command_stack.pop() {
            Some(command) => match command.execute_dyn(world) {
                Ok(redo_command) => {
                    self.redo_stack.push(redo_command);
                    assert(self.redos() == old(self).redos().push(redo_command));
                    assert(old(self).undos().last().performs(*old(world), *world, redo_command));
                    Ok(())
                },
                Err(e) => Err(e),
            },
            None => Ok(()),
        }
    }

    /// Redoes the most recently undone edit, if any, and records how to
    /// undo it again. A command that fails is dropped from the history.
    pub fn redo<W>(&mut self, world: &mut W) -> (r: Result<(), C::Error>)
        where C: CommandExt<W>,
        ensures
            old(self).redos().len() == 0 ==> r is Ok && final(self).undos() == old(self).undos()
                && final(self).redos() == old(self).redos() && *final(world) == *old(world),
            old(self).redos().len() > 0 ==> final(self).redos() == old(self).redos().drop_last(),
            old(self).redos().len() > 0 && C::obeys_command_spec() ==> (r is Ok <==> old(self).redos().last().succeeds(
                *old(world),
            )),
            old(self).redos().len() > 0 && r is Ok ==> exists|undo: C| final(self).undos() == old(self).undos().push(undo)
                && #[trigger] old(self).redos().last().performs(*old(world), *final(world), undo),
            r is Err ==> final(self).undos() == old(self).undos(),
    {
        match self.redo_stack.pop() {
            Some(command) => match command.execute_dyn(world) {
                Ok(undo_command) => {
                    self.command_stack.push(undo_command);
                    assert(self.undos() == old(self).undos().push(undo_command));
                    assert(old(self).redos().last().performs(*old(world), *world, undo_command));
                    Ok(())
                },
                Err(e) => Err(e),
            },
            None => Ok(()),
        }
    }
}

impl<C> Default for HistoryManager<C> {
    fn default() -> (h: Self)
        ensures
            h.undos() == Seq::<C>::empty(),
            h.redos() == Seq::<C>::empty(),
    {
        Self::new()
    }
}

/// Undoing an edit and then redoing it leaves as many edits to undo as
/// before, the same ones below the most recent, and the same edits to redo.
pub proof fn lemma_undo_then_redo<C>(
    undos0: Seq<C>,
    redos0: Seq<C>,
    undos1: Seq<C>,
    redos1: Seq<C>,
    undos2: Seq<C>,
    redos2: Seq<C>,
)
    requires
        undos0.len() > 0,
        undos1 == undos0.drop_last(),
        exists|redo: C| redos1 == redos0.push(redo),
        redos2 == redos1.drop_last(),
        exists|undo: C| undos2 == undos1.push(undo),
    ensures
        undos2.len() == undos0.len(),
        undos2.drop_last() == undos0.drop_last(),
        redos2 == redos0,
{
    let redo = choose|redo: C| redos1 == redos0.push(redo);
    let undo = choose|undo: C| undos2 == undos1.push(undo);
    assert(redos0.push(redo).drop_last() == redos0);
    assert(undos1.push(undo).drop_last() == undos1);
}

/// The key of the [`EditorPlugin`].
pub const EDITOR_PLUGIN_KEY: &'static str = "ivy_editor::plugin::EditorPlugin";

/// The key of the plugin that picks entities with rays.
pub const RAY_PICKING_PLUGIN_KEY: &'static str = "ivy_scene::ray_picker::RayPickingPlugin";

/// Installs the editor: its selection, history of edits and tools.
pub struct EditorPlugin;

impl Plugin for EditorPlugin {
    /// Its key, and that it runs after the editing tools, ray picking and
    /// the tools controller.
    open spec fn states_declarations(&self) -> bool {
        true
    }

    open spec fn spec_key(&self) -> Seq<char> {
        EDITOR_PLUGIN_KEY@
    }

    open spec fn spec_after(&self) -> Seq<Seq<char>> {
        seq![
            TRANSFORM_TOOL_PLUGIN_KEY@,
            RAY_PICKING_PLUGIN_KEY@,
            PHYSICS_TOOL_PLUGIN_KEY@,
            TOOLS_CONTROLLER_PLUGIN_KEY@,
        ]
    }

    fn key(&self) -> (r: String) {
        EDITOR_PLUGIN_KEY.to_owned()
    }

    fn before(&self) -> (r: Vec<String>) {
        let r: Vec<String> = Vec::new();
        assert(r.deep_view() =~= Seq::<Seq<char>>::empty());
        r
    }

    fn after(&self) -> (r: Vec<String>) {
        let mut keys: Vec<String> = Vec::new();
        keys.push(TRANSFORM_TOOL_PLUGIN_KEY.to_owned());
        keys.push(RAY_PICKING_PLUGIN_KEY.to_owned());
        keys.push(PHYSICS_TOOL_PLUGIN_KEY.to_owned());
        keys.push(TOOLS_CONTROLLER_PLUGIN_KEY.to_owned());
        assert(keys.deep_view() =~= self.spec_after());
        keys
    }
}

} // verus!
