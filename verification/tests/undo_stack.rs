//! Tests for the undo/redo command stack.

use workbench_core::dock::TileLayoutState;
use workbench_core::undo::{BasicUndoAction, EditorWorld, UndoAction, UndoStack};

fn world_with(components: Vec<Option<u64>>, resources: Vec<Option<u64>>) -> EditorWorld {
    EditorWorld { components, resources, layout: TileLayoutState::new() }
}

fn component_edit(entity: usize, old_value: u64, new_value: u64) -> UndoAction {
    UndoAction::Basic {
        action: BasicUndoAction::Component {
            entity,
            old_value,
            new_value,
            desc: String::from("edit"),
        },
    }
}

#[test]
fn push_clears_redo() {
    let mut stack = UndoStack::default();
    let mut world = world_with(vec![Some(1)], vec![]);
    stack.push(component_edit(0, 0, 1));
    stack.undo(&mut world);
    assert_eq!(stack.redo_count(), 1);
    assert_eq!(stack.undo_count(), 0);
    stack.push(component_edit(0, 0, 2));
    assert_eq!(stack.redo_count(), 0);
    assert_eq!(stack.undo_count(), 1);
}

#[test]
fn undo_then_redo_restores_component() {
    let mut stack = UndoStack::default();
    // The forward edit 7 -> 42 has been applied; the action records it.
    let mut world = world_with(vec![Some(42), Some(9)], vec![Some(3)]);
    stack.push(component_edit(0, 7, 42));

    stack.undo(&mut world);
    assert_eq!(world.components, vec![Some(7), Some(9)]);
    assert_eq!(stack.undo_count(), 0);
    assert_eq!(stack.redo_count(), 1);

    stack.redo(&mut world);
    assert_eq!(world.components, vec![Some(42), Some(9)]);
    assert_eq!(world.resources, vec![Some(3)]);
    assert_eq!(stack.undo_count(), 1);
    assert_eq!(stack.redo_count(), 0);
}

#[test]
fn undo_on_missing_entity_is_a_no_op() {
    let mut stack = UndoStack::default();
    let mut world = world_with(vec![None], vec![]);
    stack.push(component_edit(0, 7, 42));
    stack.undo(&mut world);
    // The target no longer exists: the mutation silently does nothing.
    assert_eq!(world.components, vec![None]);
    // The stack still moved the action over.
    assert_eq!(stack.redo_count(), 1);
}

#[test]
fn resource_action_reinserts() {
    let mut stack = UndoStack::default();
    let mut world = world_with(vec![], vec![Some(5)]);
    stack.record_resource(0, 2, 5);
    stack.undo(&mut world);
    assert_eq!(world.resources, vec![Some(2)]);
    stack.redo(&mut world);
    assert_eq!(world.resources, vec![Some(5)]);
}

#[test]
fn group_round_trip() {
    let mut stack = UndoStack::default();
    // Two member edits applied forward: cell 0 went 1 -> 2, cell 1 went 3 -> 4.
    let mut world = world_with(vec![Some(2), Some(4)], vec![]);
    let group = UndoAction::group(
        String::from("two edits"),
        vec![
            BasicUndoAction::Component { entity: 0, old_value: 1, new_value: 2, desc: String::from("a") },
            BasicUndoAction::Component { entity: 1, old_value: 3, new_value: 4, desc: String::from("b") },
        ],
    );
    stack.push(group);
    stack.undo(&mut world);
    assert_eq!(world.components, vec![Some(1), Some(3)]);
    stack.redo(&mut world);
    assert_eq!(world.components, vec![Some(2), Some(4)]);
}

#[test]
fn history_is_bounded_and_evicts_the_oldest() {
    // max_history = 2; push a1, a2, a3.
    let mut stack = UndoStack::default();
    stack.set_max_history(2);
    let mut world = world_with(vec![Some(3)], vec![]);
    stack.push(component_edit(0, 0, 1)); // a1
    stack.push(component_edit(0, 1, 2)); // a2
    stack.push(component_edit(0, 2, 3)); // a3
    assert_eq!(stack.undo_count(), 2);

    // Two undos return to the state immediately before a2 was applied.
    stack.undo(&mut world);
    stack.undo(&mut world);
    assert_eq!(world.components, vec![Some(1)]);
    assert_eq!(stack.undo_count(), 0);

    // a1 is permanently evicted: a third undo is a no-op.
    stack.undo(&mut world);
    assert_eq!(world.components, vec![Some(1)]);
    assert_eq!(stack.undo_count(), 0);
    assert_eq!(stack.redo_count(), 2);
}

#[test]
fn jump_matches_single_steps() {
    // Walk the same history once with jump_to and once with single steps.
    let mut jump_stack = UndoStack::default();
    let mut step_stack = UndoStack::default();
    let mut jump_world = world_with(vec![Some(3)], vec![]);
    let mut step_world = world_with(vec![Some(3)], vec![]);
    for s in [&mut jump_stack, &mut step_stack] {
        s.push(component_edit(0, 0, 1));
        s.push(component_edit(0, 1, 2));
        s.push(component_edit(0, 2, 3));
    }

    jump_stack.jump_to(0, &mut jump_world);
    step_stack.undo(&mut step_world);
    step_stack.undo(&mut step_world);
    step_stack.undo(&mut step_world);
    assert_eq!(jump_world.components, step_world.components);
    assert_eq!(jump_stack.undo_count(), step_stack.undo_count());
    assert_eq!(jump_stack.redo_count(), step_stack.redo_count());
    assert_eq!(jump_world.components, vec![Some(0)]);

    jump_stack.jump_to(2, &mut jump_world);
    step_stack.redo(&mut step_world);
    step_stack.redo(&mut step_world);
    assert_eq!(jump_world.components, step_world.components);
    assert_eq!(jump_world.components, vec![Some(2)]);
    assert_eq!(jump_stack.undo_count(), 2);

    // Jumping to the current index does nothing.
    jump_stack.jump_to(2, &mut jump_world);
    assert_eq!(jump_world.components, vec![Some(2)]);
    assert_eq!(jump_stack.undo_count(), 2);

    // Jumping past the end performs the available redos.
    jump_stack.jump_to(9, &mut jump_world);
    assert_eq!(jump_world.components, vec![Some(3)]);
    assert_eq!(jump_stack.undo_count(), 3);
}

#[test]
fn descriptions_and_histories() {
    let mut stack = UndoStack::default();
    let mut world = world_with(vec![Some(2)], vec![]);
    stack.record_component(0, 0, 1);
    stack.push(component_edit(0, 1, 2));
    assert_eq!(stack.undo_description(), Some(&String::from("edit")));
    assert_eq!(stack.redo_description(), None);
    assert_eq!(
        stack.undo_history(),
        vec![String::from("Modify component on entity 0"), String::from("edit")]
    );

    stack.undo(&mut world);
    stack.undo(&mut world);
    assert_eq!(stack.undo_description(), None);
    assert_eq!(
        stack.redo_description(),
        Some(&String::from("Modify component on entity 0"))
    );
    // Next-to-redo first.
    assert_eq!(
        stack.redo_history(),
        vec![String::from("Modify component on entity 0"), String::from("edit")]
    );
}

#[test]
fn clear_empties_both_lists() {
    let mut stack = UndoStack::default();
    let mut world = world_with(vec![Some(1)], vec![]);
    stack.push(component_edit(0, 0, 1));
    stack.undo(&mut world);
    stack.push(component_edit(0, 0, 1));
    stack.clear();
    assert_eq!(stack.undo_count(), 0);
    assert_eq!(stack.redo_count(), 0);
    assert!(!stack.can_undo());
    assert!(!stack.can_redo());
}

#[test]
fn push_boxed_behaves_like_push() {
    let mut stack = UndoStack::default();
    stack.push_boxed(Box::new(component_edit(0, 0, 1)));
    assert_eq!(stack.undo_count(), 1);
    assert_eq!(stack.undo_description(), Some(&String::from("edit")));
}

#[test]
fn service_requests_prefers_jump_then_redo_then_undo() {
    let mut stack = UndoStack::default();
    let mut world = world_with(vec![Some(2)], vec![]);
    stack.push(component_edit(0, 0, 1));
    stack.push(component_edit(0, 1, 2));

    // A menu undo request.
    stack.request_undo();
    stack.service_requests(&mut world, false, false);
    assert!(!stack.undo_requested);
    assert_eq!(world.components, vec![Some(1)]);

    // A key redo beats a key undo.
    stack.service_requests(&mut world, true, true);
    assert_eq!(world.components, vec![Some(2)]);

    // A jump request beats both keys.
    stack.request_jump(0);
    stack.service_requests(&mut world, true, true);
    assert_eq!(stack.jump_requested, None);
    assert_eq!(world.components, vec![Some(0)]);
    assert_eq!(stack.undo_count(), 0);

    // Nothing requested: nothing happens.
    stack.service_requests(&mut world, false, false);
    assert_eq!(world.components, vec![Some(0)]);
    assert_eq!(stack.undo_count(), 0);
}

#[test]
fn recorded_descriptions_name_their_target() {
    let mut stack = UndoStack::default();
    stack.record_component(17, 1, 2);
    assert_eq!(
        stack.undo_description(),
        Some(&String::from("Modify component on entity 17"))
    );
    stack.record_resource(305, 3, 4);
    assert_eq!(
        stack.undo_description(),
        Some(&String::from("Modify resource in slot 305"))
    );
}
