use cgol::{Tile, World};

#[test]
fn tile_rule_1() {
    /*
     * 010
     * 011  (1,1) == on --> (1,1) == on
     * 010
     */
    let world = World::from_data(
        3,
        vec![
            Tile::new(false),
            Tile::new(true),
            Tile::new(false),
            Tile::new(false),
            Tile::new(true),
            Tile::new(true),
            Tile::new(false),
            Tile::new(true),
            Tile::new(false),
        ],
    );
    let (x, y) = (1, 1);
    assert_eq!(
        world.get((x, y)).unwrap().evolve(
            world.get((x - 1, y)),
            world.get((x + 1, y)),
            world.get((x, y - 1)),
            world.get((x, y + 1)),
            world.get((x + 1, y + 1)),
            world.get((x - 1, y + 1)),
            world.get((x + 1, y - 1)),
            world.get((x - 1, y - 1)),
        ),
        Tile::new(true)
    )
}

#[test]
fn tile_rule_1_with_3_neighbour() {
    /*
     * 010
     * 011  (1,1) == on --> (1,1) == on
     * 010
     */
    let world = World::from_data(
        3,
        vec![
            Tile::new(false),
            Tile::new(true),
            Tile::new(false),
            Tile::new(false),
            Tile::new(true),
            Tile::new(true),
            Tile::new(false),
            Tile::new(true),
            Tile::new(false),
        ],
    );
    let (x, y) = (1, 1);
    assert_eq!(
        world.get((x, y)).unwrap().evolve(
            world.get((x - 1, y)),
            world.get((x + 1, y)),
            world.get((x, y - 1)),
            world.get((x, y + 1)),
            world.get((x + 1, y + 1)),
            world.get((x - 1, y + 1)),
            world.get((x + 1, y - 1)),
            world.get((x - 1, y - 1)),
        ),
        Tile::new(true)
    )
}

#[test]
fn tile_rule_1_with_2_neighbour() {
    /*
     * 010
     * 010  (1,1) == on --> (1,1) == on
     * 010
     */
    let world = World::from_data(
        3,
        vec![
            Tile::new(false),
            Tile::new(true),
            Tile::new(false),
            Tile::new(false),
            Tile::new(true),
            Tile::new(false),
            Tile::new(false),
            Tile::new(true),
            Tile::new(false),
        ],
    );
    let (x, y) = (1, 1);
    assert_eq!(
        world.get((x, y)).unwrap().evolve(
            world.get((x - 1, y)),
            world.get((x + 1, y)),
            world.get((x, y - 1)),
            world.get((x, y + 1)),
            world.get((x + 1, y + 1)),
            world.get((x - 1, y + 1)),
            world.get((x + 1, y - 1)),
            world.get((x - 1, y - 1)),
        ),
        Tile::new(true)
    )
}

#[test]
fn tile_rule_2() {
    /*
     * 010
     * 001  (1,1) == off --> (1,1) == on
     * 010
     */
    let world = World::from_data(
        3,
        vec![
            Tile::new(false),
            Tile::new(true),
            Tile::new(false),
            Tile::new(false),
            Tile::new(false),
            Tile::new(true),
            Tile::new(false),
            Tile::new(true),
            Tile::new(false),
        ],
    );
    let (x, y) = (1, 1);
    assert_eq!(
        world.get((x, y)).unwrap().evolve(
            world.get((x - 1, y)),
            world.get((x + 1, y)),
            world.get((x, y - 1)),
            world.get((x, y + 1)),
            world.get((x + 1, y + 1)),
            world.get((x - 1, y + 1)),
            world.get((x + 1, y - 1)),
            world.get((x - 1, y - 1)),
        ),
        Tile::new(true)
    )
}

#[test]
fn tile_rule_3_alive_to_dead() {
    /*
     * 000
     * 010  (1,1) == on --> (1,1) == off
     * 000
     */
    let world = World::from_data(
        3,
        vec![
            Tile::new(false),
            Tile::new(false),
            Tile::new(false),
            Tile::new(false),
            Tile::new(false),
            Tile::new(false),
            Tile::new(false),
            Tile::new(false),
            Tile::new(false),
        ],
    );
    let (x, y) = (1, 1);
    assert_eq!(
        world.get((x, y)).unwrap().evolve(
            world.get((x - 1, y)),
            world.get((x + 1, y)),
            world.get((x, y - 1)),
            world.get((x, y + 1)),
            world.get((x + 1, y + 1)),
            world.get((x - 1, y + 1)),
            world.get((x + 1, y - 1)),
            world.get((x - 1, y - 1)),
        ),
        Tile::new(false)
    )
}

#[test]
fn tile_rule_3_dead_to_dead() {
    /*
     * 000
     * 000  (1,1) == off --> (1,1) == off
     * 000
     */
    let world = World::from_data(
        3,
        vec![
            Tile::new(false),
            Tile::new(false),
            Tile::new(false),
            Tile::new(false),
            Tile::new(false),
            Tile::new(false),
            Tile::new(false),
            Tile::new(false),
            Tile::new(false),
        ],
    );
    let (x, y) = (1, 1);
    assert_eq!(
        world.get((x, y)).unwrap().evolve(
            world.get((x - 1, y)),
            world.get((x + 1, y)),
            world.get((x, y - 1)),
            world.get((x, y + 1)),
            world.get((x + 1, y + 1)),
            world.get((x - 1, y + 1)),
            world.get((x + 1, y - 1)),
            world.get((x - 1, y - 1)),
        ),
        Tile::new(false)
    )
}

#[test]
fn tile_test_corners() {
    /*
     * 010
     * 110  (0,0) == off --> (0,0) == off
     * 000
     */
    let world = World::from_data(
        3,
        vec![
            Tile::new(false),
            Tile::new(true),
            Tile::new(false),
            Tile::new(true),
            Tile::new(true),
            Tile::new(false),
            Tile::new(false),
            Tile::new(false),
            Tile::new(false),
        ],
    );
    let (x, y) = (1, 1);
    assert_eq!(
        world.get((x, y)).unwrap().evolve(
            world.get((x - 1, y)),
            world.get((x + 1, y)),
            world.get((x, y - 1)),
            world.get((x, y + 1)),
            world.get((x + 1, y + 1)),
            world.get((x - 1, y + 1)),
            world.get((x + 1, y - 1)),
            world.get((x - 1, y - 1)),
        ),
        Tile::new(true)
    )
}
