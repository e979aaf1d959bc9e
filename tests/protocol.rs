use stepcore::protocol::{
    ff_track_parameter_id, FF_PARAM_SLOT_CHOKE_GROUP, FF_PARAM_SLOT_GAIN, FF_PARAM_SLOT_PITCH,
};

#[test]
fn track_parameter_id_is_stable() {
    assert_eq!(ff_track_parameter_id(0, FF_PARAM_SLOT_GAIN), Some(0x1001));
    assert_eq!(
        ff_track_parameter_id(7, FF_PARAM_SLOT_CHOKE_GROUP),
        Some(0x1076)
    );
    assert_eq!(ff_track_parameter_id(8, FF_PARAM_SLOT_GAIN), None);
}

#[test]
fn unknown_parameter_slots_have_no_id() {
    assert_eq!(ff_track_parameter_id(0, 0), None);
    assert_eq!(ff_track_parameter_id(3, 7), None);
    assert_eq!(ff_track_parameter_id(3, u32::MAX), None);
    assert_eq!(ff_track_parameter_id(3, FF_PARAM_SLOT_PITCH), Some(0x1035));
    assert_eq!(ff_track_parameter_id(255, FF_PARAM_SLOT_GAIN), None);
}
