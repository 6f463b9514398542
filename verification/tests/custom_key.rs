use hashmap::HashMap;
use hashmap::Key;

/// A key whose hash is always the same, so that all keys collide.
///
/// `view` and `spec_digest` are read by specifications only: nothing calls
/// them when the program runs.
struct Clash(u32);

impl vstd::view::View for Clash {
    type V = u32;

    fn view(&self) -> u32 {
        self.0
    }
}

impl Key for Clash {
    fn spec_digest(_: u32) -> u64 {
        7
    }

    fn digest(&self) -> u64 {
        7
    }

    fn same(&self, other: &Self) -> bool {
        self.0 == other.0
    }
}

#[test]
fn table_works_when_every_key_collides() {
    let mut map = HashMap::new();
    for k in 0..40u32 {
        assert_eq!(map.insert(Clash(k), k), None);
    }
    assert_eq!(map.capacity(), 64);
    for k in 0..40u32 {
        assert_eq!(map.get(&Clash(k)), Some(&k));
    }
    for k in (0..40u32).step_by(2) {
        assert_eq!(map.remove(&Clash(k)), Some(k));
    }
    for k in 0..40u32 {
        let expected = if k % 2 == 0 { None } else { Some(k) };
        assert_eq!(map.get(&Clash(k)).copied(), expected);
    }
    assert_eq!(map.len(), 20);
}
