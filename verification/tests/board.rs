use cgol::{Tile, World};

#[test]
fn init_world() {
    let world = World::from_data(
        2,
        vec![
            Tile::new(false),
            Tile::new(true),
            Tile::new(false),
            Tile::new(true),
        ],
    );
    assert_eq!(world.get((0, 0)).unwrap().on, Tile::new(false).on);
    assert_eq!(world.get((1, 0)).unwrap().on, Tile::new(true).on);
    assert_eq!(world.get((0, 1)).unwrap().on, Tile::new(false).on);
    assert_eq!(world.get((1, 1)).unwrap().on, Tile::new(true).on);
}

#[test]
fn test_tick_1() {
    /*
     * 000      000
     * 000  ==> 000
     * 000      000
     */

    let seed = vec![
        Tile::new(false),
        Tile::new(false),
        Tile::new(false),
        Tile::new(false),
        Tile::new(false),
        Tile::new(false),
        Tile::new(false),
        Tile::new(false),
        Tile::new(false),
    ];

    let mut world = World::from_data(3, seed.clone());
    world.tick();
    world.tick();

    assert_eq!(world.tiles, seed)
}

#[test]
fn test_tick_2() {
    /*
     * 010      111
     * 111  ==> 101
     * 010      111
     */

    let seed = vec![
        Tile::new(false),
        Tile::new(true),
        Tile::new(false),
        Tile::new(true),
        Tile::new(true),
        Tile::new(true),
        Tile::new(false),
        Tile::new(true),
        Tile::new(false),
    ];

    let tick_one = vec![
        Tile::new(true),
        Tile::new(true),
        Tile::new(true),
        Tile::new(true),
        Tile::new(false),
        Tile::new(true),
        Tile::new(true),
        Tile::new(true),
        Tile::new(true),
    ];

    let mut world = World::from_data(3, seed.clone());
    world.tick();

    assert_eq!(world.tiles, tick_one)
}
