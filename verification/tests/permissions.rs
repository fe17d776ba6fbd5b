use server::player::{Character, CharacterConfig, TELEPORT};

#[test]
fn test_permissions() {
    let admin = Character {
        id: 0,
        name: "admin".to_string(),
        role: TELEPORT,
        config: CharacterConfig { brief: false },
    };

    assert!(admin.can(TELEPORT));

    let player = Character {
        id: 0,
        name: "player".to_string(),
        role: 0,
        config: CharacterConfig { brief: false },
    };

    assert!(!player.can(TELEPORT));
}

#[test]
fn permission_needs_every_bit() {
    let character = Character {
        id: 1,
        name: "builder".to_string(),
        role: 0b0101,
        config: CharacterConfig { brief: true },
    };

    assert!(character.can(0b0001));
    assert!(character.can(0b0100));
    assert!(character.can(0b0101));
    assert!(character.can(0));
    assert!(!character.can(0b0010));
    assert!(!character.can(0b0111));
    assert!(!character.can(0b0011));
}

#[test]
fn empty_role_grants_only_the_empty_mask() {
    let character = Character {
        id: 2,
        name: "guest".to_string(),
        role: 0,
        config: CharacterConfig { brief: false },
    };

    assert!(character.can(0));
    for bit in 0..15 {
        assert!(!character.can(1 << bit));
    }
    assert!(!character.can(i16::MIN));
    assert!(!character.can(-1));
}
