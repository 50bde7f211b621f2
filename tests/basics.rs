use moon_core::entity::Entity;
use moon_core::phases::{ExtractUiSystems, UiBatch, UiSystems};

#[test]
fn entity_bits_put_generation_high() {
    assert_eq!(Entity::new(5, 2).to_bits(), (2u64 << 32) | 5);
    assert_eq!(Entity::new(u32::MAX, u32::MAX).to_bits(), u64::MAX);
}

#[test]
fn stages_run_in_order() {
    assert!(UiSystems::Stack.runs_before(UiSystems::Layout));
    assert!(!UiSystems::PostLayout.runs_before(UiSystems::Prepare));
    assert_eq!(UiSystems::Content.rank(), 1);
    assert_eq!(ExtractUiSystems::Divs.rank(), 2);
}

#[test]
fn batches_count_their_instances() {
    let batch: UiBatch<u8> = UiBatch::new(3..10);
    assert_eq!(batch.range, 3..10);
    assert_eq!(batch.len(), 7);
    let empty: UiBatch<u8> = UiBatch::new(4..4);
    assert_eq!(empty.len(), 0);
}
