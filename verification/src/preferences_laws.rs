//! Laws on what preferences keep of the context state.

use crate::effects::free;
use crate::model::{AssignmentText, ContextModel, Selection};
use crate::name_set::{lemma_names_in_order, name_order};
use crate::order::increasing;
use crate::preferences::{SavedContext, SavedContexts, SavedSelection};
use crate::table::{entries_in_order, key_order, keys_of, KeyText};
use crate::table::{lemma_entry, lemma_key, lemma_key_order_asymmetric, lemma_map_in_order};
use crate::text::{law_kept_names_are_stable, normalized, precedes, Text};
use vstd::prelude::*;

verus! {

/// The keys of saved backups.
pub open spec fn saved_keys(saved: Seq<SavedContext>) -> Seq<KeyText> {
    saved.map_values(|entry: SavedContext| entry.key())
}

/// Preferences are in order: the known contexts by name, and the backups by endpoint and workspace.
/// None occurs twice.
pub proof fn law_preferences_are_in_order(state: ContextModel)
    requires
        state.valid(),
    ensures
        increasing(name_order(), state.saved().known),
        state.saved().known.to_set() == state.known,
        increasing(key_order(), saved_keys(state.saved().workspaces)),
        saved_keys(state.saved().workspaces).to_set() == state.assignments.dom(),
{
    lemma_names_in_order(state.known);
    lemma_map_in_order(state.assignments);
    let entries = entries_in_order(state.assignments);
    let keys = saved_keys(state.saved().workspaces);
    assert(keys =~= keys_of(entries));
    assert forall|key: KeyText| keys.to_set().contains(key) == state.assignments.contains_key(
        key,
    ) by {}
    assert(keys.to_set() =~= state.assignments.dom());
}

/// Some of the names is admitted as this one.
spec fn admits(state: ContextModel, names: Seq<Text>, name: Text) -> bool {
    exists|i: int| 0 <= i < names.len() && state.admitted(#[trigger] names[i]) == Some(name)
}

/// What saved names make known.
proof fn lemma_add_all(state: ContextModel, names: Seq<Text>)
    ensures
        ({
            let after = state.add_all(names);
            &&& after == (ContextModel { known: after.known, ..state })
            &&& forall|name: Text| #[trigger]
                after.known.contains(name) <==> state.known.contains(name) || admits(
                    state,
                    names,
                    name,
                )
            &&& state.known.finite() ==> after.known.finite()
        }),
    decreases names.len(),
{
    let after = state.add_all(names);
    if names.len() > 0 {
        let short = names.drop_last();
        lemma_add_all(state, short);
        let before = state.add_all(short);
        assert forall|name: Text| #[trigger]
            after.known.contains(name) <==> state.known.contains(name) || admits(
                state,
                names,
                name,
            ) by {
            if admits(state, short, name) {
                let i = choose|i: int|
                    0 <= i < short.len() && state.admitted(#[trigger] short[i]) == Some(name);
                assert(state.admitted(names[i]) == Some(name));
            }
            if admits(state, names, name) {
                let i = choose|i: int|
                    0 <= i < names.len() && state.admitted(#[trigger] names[i]) == Some(name);
                if i < short.len() {
                    assert(state.admitted(short[i]) == Some(name));
                }
            }
            assert(names[names.len() - 1] == names.last());
        }
    }
}

/// Some of the saved backups makes this context known.
spec fn restores(state: ContextModel, saved: Seq<SavedContext>, name: Text) -> bool {
    exists|i: int|
        0 <= i < saved.len() && state.learned((#[trigger] saved[i]).context) == Some(name)
}

/// What saved backups make of a state.
proof fn lemma_restore_workspaces(state: ContextModel, saved: Seq<SavedContext>)
    ensures
        ({
            let after = state.restore_workspaces(saved);
            &&& after == (ContextModel {
                known: after.known,
                assignments: after.assignments,
                ..state
            })
            &&& forall|name: Text| #[trigger]
                after.known.contains(name) <==> state.known.contains(name) || restores(state, saved, name)
            &&& forall|key: KeyText|
                !saved_keys(saved).contains(key) ==> #[trigger] after.assignments.get(key)
                    == state.assignments.get(key)
            &&& state.known.finite() ==> after.known.finite()
            &&& state.assignments.dom().finite() ==> after.assignments.dom().finite()
        }),
    decreases saved.len(),
{
    let after = state.restore_workspaces(saved);
    if saved.len() > 0 {
        let short = saved.drop_last();
        let last = saved.last();
        lemma_restore_workspaces(state, short);
        let before = state.restore_workspaces(short);
        assert forall|name: Text| #[trigger]
            after.known.contains(name) <==> state.known.contains(name) || restores(state, saved, name) by {
            if restores(state, short, name) {
                let i = choose|i: int|
                    0 <= i < short.len() && state.learned((#[trigger] short[i]).context) == Some(name);
                assert(state.learned(saved[i].context) == Some(name));
            }
            if restores(state, saved, name) {
                let i = choose|i: int|
                    0 <= i < saved.len() && state.learned((#[trigger] saved[i]).context) == Some(name);
                if i < short.len() {
                    assert(state.learned(short[i].context) == Some(name));
                }
            }
            assert(saved[saved.len() - 1] == last);
        }
        assert forall|key: KeyText| !saved_keys(saved).contains(key) implies #[trigger]
            after.assignments.get(key) == state.assignments.get(key) by {
            assert(saved_keys(saved)[saved.len() - 1] == last.key());
            if saved_keys(short).contains(key) {
                let i = saved_keys(short).index_of(key);
                assert(saved_keys(saved)[i] == short[i].key());
            }
            assert(key != last.key());
            assert(before.assignments.get(key) == state.assignments.get(key));
        }
    }
}

/// The backup that a saved one stands for.
spec fn backup_of(saved: SavedContext) -> Option<AssignmentText> {
    match normalized(saved.context) {
        Some(context) => Some(AssignmentText { context, boot_id: saved.boot_id }),
        None => None,
    }
}

/// Where no key occurs twice, each saved backup that names a context comes back.
proof fn lemma_restored_backup(state: ContextModel, saved: Seq<SavedContext>, i: int)
    requires
        saved_keys(saved).no_duplicates(),
        0 <= i < saved.len(),
        !state.assignments.contains_key(saved[i].key()),
    ensures
        state.restore_workspaces(saved).assignments.get(saved[i].key()) == backup_of(saved[i]),
    decreases saved.len(),
{
    let short = saved.drop_last();
    let last = saved.last();
    let keys = saved_keys(saved);
    let short_keys = saved_keys(short);
    assert(short_keys =~= keys.drop_last());
    assert(keys[i] == saved[i].key());
    assert(keys[saved.len() - 1] == last.key());
    assert forall|a: int, b: int| 0 <= a < short_keys.len() && 0 <= b < short_keys.len() && a
        != b implies short_keys[a] != short_keys[b] by {
        assert(keys[a] != keys[b]);
    }
    if i < short.len() {
        lemma_restored_backup(state, short, i);
        assert(short[i] == saved[i]);
        assert(keys[i] != keys[saved.len() - 1]);
    } else {
        lemma_restore_workspaces(state, short);
        assert(!short_keys.contains(last.key())) by {
            if short_keys.contains(last.key()) {
                let a = short_keys.index_of(last.key());
                assert(keys[a] == keys[saved.len() - 1]);
            }
        }
        let before = state.restore_workspaces(short);
        assert(before.assignments.get(last.key()) == state.assignments.get(last.key()));
    }
}

/// A state that is restored is valid, what it holds has the form in which names are kept, and its
/// backups name known contexts or built-in tabs. It starts without moves on their way and without
/// queued reports.
pub proof fn law_restored_states_are_valid(
    token_key: Option<Text>,
    default_name: Text,
    saved: Option<SavedContexts>,
)
    ensures
        ({
            let state = ContextModel::restored(token_key, default_name, saved);
            &&& state.valid()
            &&& state.covered()
            &&& state.token_key == token_key
            &&& state.default_name == default_name
            &&& state.pending == Map::<KeyText, Option<Text>>::empty()
            &&& state.queued_reports.len() == 0
            &&& forall|name: Text| #[trigger]
                state.known.contains(name) ==> normalized(name) == Some(name)
            &&& forall|key: KeyText|
                #![trigger state.assignments[key]]
                state.assignments.contains_key(key) ==> normalized(state.assignments[key].context)
                    == Some(state.assignments[key].context)
        }),
{
    let fresh = ContextModel::fresh(token_key, default_name);
    if let Some(saved) = saved {
        let named = fresh.add_all(saved.known);
        let backed = named.restore_workspaces(saved.workspaces);
        let state = backed.restore_active(saved.active);
        lemma_add_all(fresh, saved.known);
        lemma_restore_workspaces(named, saved.workspaces);
        assert forall|name: Text| #[trigger] state.known.contains(name) implies normalized(name)
            == Some(name) && !state.built_in(name) by {
            lemma_known_source(token_key, default_name, saved, name);
        }
        assert forall|key: KeyText|
            #![trigger state.assignments[key]]
            state.assignments.contains_key(key) implies ({
            let context = state.assignments[key].context;
            normalized(context) == Some(context) && state.has_tab(context)
        }) by {
            lemma_backup_is_known(named, saved.workspaces, key);
        }
    }
}

/// Every restored backup names a context in the form in which names are kept, which is known unless
/// a built-in tab has its name.
proof fn lemma_backup_is_known(state: ContextModel, saved: Seq<SavedContext>, key: KeyText)
    requires
        state.assignments == Map::<KeyText, AssignmentText>::empty(),
    ensures
        ({
            let after = state.restore_workspaces(saved);
            let context = after.assignments[key].context;
            after.assignments.contains_key(key) ==> normalized(context) == Some(context)
                && after.has_tab(context)
        }),
    decreases saved.len(),
{
    if saved.len() > 0 {
        lemma_backup_is_known(state, saved.drop_last(), key);
        law_kept_names_are_stable(saved.last().context);
    }
}

/// A restored name is the kept form of a saved one, and no built-in tab that shows workspaces has
/// it. A reserved one comes from a saved backup.
proof fn lemma_known_source(
    token_key: Option<Text>,
    default_name: Text,
    saved: SavedContexts,
    name: Text,
)
    requires
        ContextModel::restored(token_key, default_name, Some(saved)).known.contains(name),
    ensures
        ({
            let fresh = ContextModel::fresh(token_key, default_name);
            &&& normalized(name) == Some(name)
            &&& !fresh.built_in(name)
            &&& fresh.reserved(name) ==> restores(fresh, saved.workspaces, name)
        }),
{
    let fresh = ContextModel::fresh(token_key, default_name);
    let named = fresh.add_all(saved.known);
    let backed = named.restore_workspaces(saved.workspaces);
    lemma_add_all(fresh, saved.known);
    lemma_restore_workspaces(named, saved.workspaces);
    if backed.known.contains(name) {
        if named.known.contains(name) {
            let i = choose|i: int|
                0 <= i < saved.known.len() && fresh.admitted(#[trigger] saved.known[i]) == Some(
                    name,
                );
            law_kept_names_are_stable(saved.known[i]);
        } else {
            let i = choose|i: int|
                0 <= i < saved.workspaces.len() && named.learned(
                    (#[trigger] saved.workspaces[i]).context,
                ) == Some(name);
            law_kept_names_are_stable(saved.workspaces[i].context);
            assert(fresh.learned(saved.workspaces[i].context) == Some(name));
        }
    } else {
        if let Some(SavedSelection::Named(raw)) = saved.active {
            law_kept_names_are_stable(raw);
        }
    }
}

/// A state that is restored can be saved and restored again as often as one likes, where its known
/// contexts with a reserved name are backed up. They are where no saved backup has the key of
/// another.
pub proof fn law_restored_states_are_storable(
    token_key: Option<Text>,
    default_name: Text,
    saved: SavedContexts,
)
    ensures
        ({
            let state = ContextModel::restored(token_key, default_name, Some(saved));
            &&& state.storable() <==> forall|name: Text| #[trigger]
                state.known.contains(name) && state.reserved(name) ==> state.backed_up(name)
            &&& saved_keys(saved.workspaces).no_duplicates() ==> state.storable()
        }),
{
    let state = ContextModel::restored(token_key, default_name, Some(saved));
    law_restored_states_are_valid(token_key, default_name, Some(saved));
    assert forall|key: KeyText|
        #![trigger state.assignments[key]]
        state.assignments.contains_key(key) implies state.has_tab(
        state.assignments[key].context,
    ) by {}
    if saved_keys(saved.workspaces).no_duplicates() {
        let fresh = ContextModel::fresh(token_key, default_name);
        let named = fresh.add_all(saved.known);
        lemma_add_all(fresh, saved.known);
        lemma_restore_workspaces(named, saved.workspaces);
        assert forall|name: Text| #[trigger]
            state.known.contains(name) && state.reserved(name) implies state.backed_up(name) by {
            lemma_known_source(token_key, default_name, saved, name);
            let i = choose|i: int|
                0 <= i < saved.workspaces.len() && fresh.learned(
                    (#[trigger] saved.workspaces[i]).context,
                ) == Some(name);
            lemma_restored_backup(named, saved.workspaces, i);
            assert(state.assignments.contains_key(saved.workspaces[i].key()));
        }
    }
}

/// The backup that comes back for a workspace when a state is saved and restored.
spec fn restored_backup(state: ContextModel, key: KeyText) -> Option<AssignmentText> {
    match state.assignments.get(key) {
        Some(assignment) => match normalized(assignment.context) {
            Some(context) => Some(AssignmentText { context, boot_id: assignment.boot_id }),
            None => None,
        },
        None => None,
    }
}

/// What is saved of the backups, key by key.
proof fn lemma_saved_backup(state: ContextModel, key: KeyText) -> (i: int)
    requires
        state.valid(),
        state.assignments.contains_key(key),
    ensures
        0 <= i < state.saved().workspaces.len(),
        state.saved().workspaces[i].key() == key,
        state.saved().workspaces[i].context == state.assignments[key].context,
        state.saved().workspaces[i].boot_id == state.assignments[key].boot_id,
{
    let entries = entries_in_order(state.assignments);
    lemma_map_in_order(state.assignments);
    let i = lemma_key(entries, key);
    lemma_entry(entries, i);
    i
}

/// Each saved backup is one of the state.
proof fn lemma_backup_saved(state: ContextModel, i: int)
    requires
        state.valid(),
        0 <= i < state.saved().workspaces.len(),
    ensures
        ({
            let saved = state.saved().workspaces[i];
            state.assignments.get(saved.key()) == Some(
                AssignmentText { context: saved.context, boot_id: saved.boot_id },
            )
        }),
{
    let entries = entries_in_order(state.assignments);
    lemma_map_in_order(state.assignments);
    lemma_entry(entries, i);
}

/// No saved backup of a state has the key of another.
proof fn lemma_saved_keys_distinct(state: ContextModel)
    requires
        state.valid(),
    ensures
        saved_keys(state.saved().workspaces).no_duplicates(),
{
    let keys = saved_keys(state.saved().workspaces);
    let lt = key_order();
    law_preferences_are_in_order(state);
    lemma_key_order_asymmetric();
    assert forall|a: int, b: int| 0 <= a < keys.len() && 0 <= b < keys.len() && a
        != b implies keys[a] != keys[b] by {
        assert(lt(keys[a], keys[b]) || lt(keys[b], keys[a]));
    }
}

/// The backups that come back when a state is saved and restored.
proof fn lemma_backups_return(state: ContextModel, named: ContextModel, key: KeyText)
    requires
        state.valid(),
        named.assignments == Map::<KeyText, AssignmentText>::empty(),
    ensures
        named.restore_workspaces(state.saved().workspaces).assignments.get(key) == restored_backup(
            state,
            key,
        ),
{
    let saved = state.saved().workspaces;
    let keys = saved_keys(saved);
    law_preferences_are_in_order(state);
    lemma_saved_keys_distinct(state);
    lemma_restore_workspaces(named, saved);
    if state.assignments.contains_key(key) {
        let i = lemma_saved_backup(state, key);
        lemma_restored_backup(named, saved, i);
    } else {
        assert(!keys.to_set().contains(key));
        assert(named.assignments.get(key) is None);
    }
}

/// The names that come back when a storable state is saved and restored.
proof fn lemma_names_return(
    state: ContextModel,
    token_key: Option<Text>,
    named: ContextModel,
    name: Text,
)
    requires
        state.valid(),
        state.storable(),
        named.default_name == state.default_name,
    ensures
        ({
            let fresh = ContextModel::fresh(token_key, state.default_name);
            let saved = state.saved();
            state.known.contains(name) <==> admits(fresh, saved.known, name) || restores(
                named,
                saved.workspaces,
                name,
            )
        }),
{
    let fresh = ContextModel::fresh(token_key, state.default_name);
    let saved = state.saved();
    law_preferences_are_in_order(state);
    if admits(fresh, saved.known, name) {
        let i = choose|i: int|
            0 <= i < saved.known.len() && fresh.admitted(#[trigger] saved.known[i]) == Some(name);
        assert(saved.known.to_set().contains(saved.known[i]));
        assert(state.known.contains(saved.known[i]));
    }
    if restores(named, saved.workspaces, name) {
        let i = choose|i: int|
            0 <= i < saved.workspaces.len() && named.learned(
                (#[trigger] saved.workspaces[i]).context,
            ) == Some(name);
        lemma_backup_saved(state, i);
        let key = saved.workspaces[i].key();
        assert(state.has_tab(state.assignments[key].context));
    }
    if state.known.contains(name) {
        if state.reserved(name) {
            let key = choose|key: KeyText| #[trigger]
                state.assignments.contains_key(key) && state.assignments[key].context == name;
            let i = lemma_saved_backup(state, key);
            assert(named.learned(saved.workspaces[i].context) == Some(name));
        } else {
            assert(saved.known.to_set().contains(name));
            let i = saved.known.index_of(name);
            assert(fresh.admitted(saved.known[i]) == Some(name));
        }
    }
}

/// Saving a state and restoring it brings back the active tab, the known contexts and the backups,
/// and what is saved again is the same. Moves on their way and queued reports are not saved. This
/// holds of the states that are storable, and of no others.
pub proof fn law_preferences_round_trip(state: ContextModel, token_key: Option<Text>)
    requires
        state.valid(),
    ensures
        ({
            let restored = ContextModel::restored(
                token_key,
                state.default_name,
                state.to_preferences(),
            );
            &&& state.storable() <==> restored == state.saved_part(token_key)
            &&& state.storable() ==> restored.to_preferences() == state.to_preferences()
        }),
{
    let restored = ContextModel::restored(
        token_key,
        state.default_name,
        state.to_preferences(),
    );
    let part = state.saved_part(token_key);
    if state.nothing_to_save() {
        assert(restored =~= part);
    } else {
        let fresh = ContextModel::fresh(token_key, state.default_name);
        let saved = state.saved();
        let named = fresh.add_all(saved.known);
        let backed = named.restore_workspaces(saved.workspaces);
        law_preferences_are_in_order(state);
        lemma_add_all(fresh, saved.known);
        lemma_restore_workspaces(named, saved.workspaces);
        if state.storable() {
            assert forall|name: Text| backed.known.contains(name) == state.known.contains(name) by {
                lemma_names_return(state, token_key, named, name);
            }
            assert(backed.known =~= state.known);
            assert forall|key: KeyText| backed.assignments.contains_key(key)
                == state.assignments.contains_key(key) by {
                lemma_backups_return(state, named, key);
                if state.assignments.contains_key(key) {
                    assert(state.has_tab(state.assignments[key].context));
                }
            }
            assert forall|key: KeyText| backed.assignments.contains_key(
                key,
            ) implies backed.assignments[key] == state.assignments[key] by {
                lemma_backups_return(state, named, key);
                assert(state.has_tab(state.assignments[key].context));
            }
            assert(backed.assignments =~= state.assignments);
            if let Selection::Named(name) = state.active {
                assert(backed.known.insert(name) =~= backed.known);
            }
            assert(restored =~= part);
        }
        if restored == part {
            lemma_saved_keys_distinct(state);
            law_restored_states_are_storable(token_key, state.default_name, saved);
            lemma_same_storable(restored, state);
        }
    }
}

/// States with the same default name, known contexts and backups are storable together.
proof fn lemma_same_storable(left: ContextModel, right: ContextModel)
    requires
        left.default_name == right.default_name,
        left.saves_as(right),
        left.storable(),
    ensures
        right.storable(),
{
    assert forall|name: Text| #[trigger] right.known.contains(name) implies normalized(name)
        == Some(name) && (!right.reserved(name) || right.backed_up(name)) by {
        assert(left.known.contains(name));
        if right.reserved(name) {
            let key = choose|key: KeyText| #[trigger]
                left.assignments.contains_key(key) && left.assignments[key].context == name;
            assert(right.assignments.contains_key(key));
        }
    }
    assert forall|key: KeyText|
        #![trigger right.assignments[key]]
        right.assignments.contains_key(key) implies ({
        let context = right.assignments[key].context;
        normalized(context) == Some(context) && right.has_tab(context)
    }) by {
        assert(left.has_tab(left.assignments[key].context));
    }
}

/// What is saved: the active tab unless it is the default one, the known contexts in alphabetical
/// order, and the backup of each workspace under its own endpoint and id, ordered by endpoint and
/// then by id. Nothing is saved of a state on the default tab that knows nothing and backs up
/// nothing.
pub proof fn law_what_is_saved(state: ContextModel, name: Text, key: KeyText)
    requires
        state.valid(),
    ensures
        ({
            let saved = state.saved();
            let backups = saved.workspaces;
            &&& saved.active == match state.active {
                Selection::Default => None,
                Selection::All => Some(SavedSelection::All),
                Selection::Named(active) => Some(SavedSelection::Named(active)),
            }
            &&& saved.known.contains(name) <==> state.known.contains(name)
            &&& forall|i: int, j: int|
                0 <= i < j < saved.known.len() ==> precedes(
                    #[trigger] saved.known[i],
                    #[trigger] saved.known[j],
                )
            &&& forall|i: int|
                0 <= i < backups.len() ==> state.assignments.get(
                    ((#[trigger] backups[i]).endpoint, backups[i].workspace_id),
                ) == Some(
                    AssignmentText { context: backups[i].context, boot_id: backups[i].boot_id },
                )
            &&& state.assignments.contains_key(key) ==> exists|i: int|
                0 <= i < backups.len() && (#[trigger] backups[i]).endpoint == key.0
                    && backups[i].workspace_id == key.1
            &&& forall|i: int, j: int|
                0 <= i < j < backups.len() ==> precedes(
                    (#[trigger] backups[i]).endpoint,
                    (#[trigger] backups[j]).endpoint,
                ) || (backups[i].endpoint == backups[j].endpoint && precedes(
                    backups[i].workspace_id,
                    backups[j].workspace_id,
                ))
            &&& state.to_preferences() is None <==> state.active is Default && (forall|known: Text|
                !state.known.contains(known)) && (forall|backed: KeyText|
                !state.assignments.contains_key(backed))
            &&& state.to_preferences() is Some ==> state.to_preferences() == Some(saved)
        }),
{
    let saved = state.saved();
    let keys = saved_keys(saved.workspaces);
    law_preferences_are_in_order(state);
    assert(saved.known.to_set().contains(name) <==> state.known.contains(name));
    assert forall|i: int, j: int| 0 <= i < j < saved.known.len() implies precedes(
        #[trigger] saved.known[i],
        #[trigger] saved.known[j],
    ) by {
        let lt = name_order();
        assert(lt(saved.known[i], saved.known[j]));
    }
    assert forall|i: int| 0 <= i < saved.workspaces.len() implies state.assignments.get(
        ((#[trigger] saved.workspaces[i]).endpoint, saved.workspaces[i].workspace_id),
    ) == Some(
        AssignmentText {
            context: saved.workspaces[i].context,
            boot_id: saved.workspaces[i].boot_id,
        },
    ) by {
        lemma_backup_saved(state, i);
    }
    if state.assignments.contains_key(key) {
        let i = lemma_saved_backup(state, key);
        assert(saved.workspaces[i].endpoint == key.0);
    }
    assert forall|i: int, j: int| 0 <= i < j < saved.workspaces.len() implies precedes(
        (#[trigger] saved.workspaces[i]).endpoint,
        (#[trigger] saved.workspaces[j]).endpoint,
    ) || (saved.workspaces[i].endpoint == saved.workspaces[j].endpoint && precedes(
        saved.workspaces[i].workspace_id,
        saved.workspaces[j].workspace_id,
    )) by {
        let lt = key_order();
        assert(lt(keys[i], keys[j]));
    }
    assert(state.known.is_empty() <==> forall|known: Text| !state.known.contains(known)) by {
        if forall|known: Text| !state.known.contains(known) {
            assert(state.known =~= Set::empty());
        }
    }
    assert(state.assignments.is_empty() <==> forall|backed: KeyText|
        !state.assignments.contains_key(backed)) by {
        if forall|backed: KeyText| !state.assignments.contains_key(backed) {
            assert(state.assignments =~= Map::empty());
        }
    }
}

/// What is restored: the saved names in their kept form, but for built-in labels, the saved backups
/// with their contexts, and the saved tab. Of several backups of one workspace the last one counts.
/// A saved name without a kept form is passed over.
pub proof fn law_what_is_restored(
    token_key: Option<Text>,
    default_name: Text,
    saved: SavedContexts,
    name: Text,
)
    ensures
        ({
            let state = ContextModel::restored(token_key, default_name, Some(saved));
            &&& state.known.contains(name) <==> {
                ||| free(state, name) && exists|i: int|
                    0 <= i < saved.known.len() && normalized(#[trigger] saved.known[i]) == Some(
                        name,
                    )
                ||| name != default_name && name != "all"@ && exists|i: int|
                    0 <= i < saved.workspaces.len() && normalized(
                        (#[trigger] saved.workspaces[i]).context,
                    ) == Some(name)
                ||| free(state, name) && saved.active is Some && saved.active->0 is Named
                    && normalized(saved.active->0->Named_0) == Some(name)
            }
            &&& state.active == match saved.active {
                Some(SavedSelection::All) => Selection::All,
                Some(SavedSelection::Named(raw)) => match normalized(raw) {
                    Some(active) => if free(state, active) {
                        Selection::Named(active)
                    } else {
                        Selection::Default
                    },
                    None => Selection::Default,
                },
                _ => Selection::Default,
            }
        }),
{
    let fresh = ContextModel::fresh(token_key, default_name);
    let named = fresh.add_all(saved.known);
    let backed = named.restore_workspaces(saved.workspaces);
    let state = ContextModel::restored(token_key, default_name, Some(saved));
    lemma_add_all(fresh, saved.known);
    lemma_restore_workspaces(named, saved.workspaces);
    assert(admits(fresh, saved.known, name) <==> free(state, name) && exists|i: int|
        0 <= i < saved.known.len() && normalized(#[trigger] saved.known[i]) == Some(name)) by {
        if exists|i: int|
            0 <= i < saved.known.len() && normalized(#[trigger] saved.known[i]) == Some(name) {
            let i = choose|i: int|
                0 <= i < saved.known.len() && normalized(#[trigger] saved.known[i]) == Some(name);
            if free(state, name) {
                assert(fresh.admitted(saved.known[i]) == Some(name));
            }
        }
        if admits(fresh, saved.known, name) {
            let i = choose|i: int|
                0 <= i < saved.known.len() && fresh.admitted(#[trigger] saved.known[i]) == Some(
                    name,
                );
            assert(normalized(saved.known[i]) == Some(name));
        }
    }
    assert(restores(named, saved.workspaces, name) <==> name != default_name && name != "all"@
        && exists|i: int|
        0 <= i < saved.workspaces.len() && normalized((#[trigger] saved.workspaces[i]).context)
            == Some(name)) by {
        if exists|i: int|
            0 <= i < saved.workspaces.len() && normalized((#[trigger] saved.workspaces[i]).context)
                == Some(name) {
            let i = choose|i: int|
                0 <= i < saved.workspaces.len() && normalized(
                    (#[trigger] saved.workspaces[i]).context,
                ) == Some(name);
            if name != default_name && name != "all"@ {
                assert(named.learned(saved.workspaces[i].context) == Some(name));
            }
        }
        if restores(named, saved.workspaces, name) {
            let i = choose|i: int|
                0 <= i < saved.workspaces.len() && named.learned(
                    (#[trigger] saved.workspaces[i]).context,
                ) == Some(name);
            assert(normalized(saved.workspaces[i].context) == Some(name));
        }
    }
}

/// Of several saved backups of one workspace the last one that names a context is restored, and with
/// it the boot. A workspace without one has none.
pub proof fn law_last_backup_is_restored(
    token_key: Option<Text>,
    default_name: Text,
    saved: SavedContexts,
    key: KeyText,
    i: int,
)
    requires
        -1 <= i < saved.workspaces.len(),
        i >= 0 ==> saved.workspaces[i].endpoint == key.0 && saved.workspaces[i].workspace_id
            == key.1 && normalized(saved.workspaces[i].context) is Some,
        forall|j: int|
            i < j < saved.workspaces.len() ==> (#[trigger] saved.workspaces[j]).endpoint != key.0
                || saved.workspaces[j].workspace_id != key.1 || normalized(
                saved.workspaces[j].context,
            ) is None,
    ensures
        ({
            let state = ContextModel::restored(token_key, default_name, Some(saved));
            state.assignments.get(key) == if i >= 0 {
                Some(
                    AssignmentText {
                        context: normalized(saved.workspaces[i].context)->0,
                        boot_id: saved.workspaces[i].boot_id,
                    },
                )
            } else {
                None
            }
        }),
{
    let fresh = ContextModel::fresh(token_key, default_name);
    lemma_add_all(fresh, saved.known);
    lemma_last_backup(fresh.add_all(saved.known), saved.workspaces, key, i);
}

/// The last saved backup of a workspace is the one that is restored.
proof fn lemma_last_backup(
    state: ContextModel,
    saved: Seq<SavedContext>,
    key: KeyText,
    i: int,
)
    requires
        !state.assignments.contains_key(key),
        -1 <= i < saved.len(),
        i >= 0 ==> saved[i].key() == key && normalized(saved[i].context) is Some,
        forall|j: int|
            i < j < saved.len() ==> (#[trigger] saved[j]).key() != key || normalized(
                saved[j].context,
            ) is None,
    ensures
        state.restore_workspaces(saved).assignments.get(key) == if i >= 0 {
            backup_of(saved[i])
        } else {
            None
        },
    decreases saved.len(),
{
    if saved.len() > 0 {
        let short = saved.drop_last();
        if i < saved.len() - 1 {
            assert(saved[saved.len() - 1] == saved.last());
            assert forall|j: int| i < j < short.len() implies (#[trigger] short[j]).key() != key
                || normalized(short[j].context) is None by {
                assert(saved[j] == short[j]);
            }
            lemma_last_backup(state, short, key, i);
        }
    }
}

} // verus!
