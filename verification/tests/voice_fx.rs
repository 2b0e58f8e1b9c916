use phonemic::voice_fx::Effect;

#[test]
fn effect_bytes_round_trip() {
    for e in [Effect::Off, Effect::Deep, Effect::Chipmunk, Effect::Robot] {
        assert_eq!(Effect::from_u8(e.to_u8()), e);
    }
    assert_eq!(Effect::Off.to_u8(), 0);
    assert_eq!(Effect::Deep.to_u8(), 1);
    assert_eq!(Effect::Chipmunk.to_u8(), 2);
    assert_eq!(Effect::Robot.to_u8(), 3);
}

#[test]
fn unknown_effect_byte_is_off() {
    assert_eq!(Effect::from_u8(4), Effect::Off);
    assert_eq!(Effect::from_u8(255), Effect::Off);
}
