use elytra_sim::pitches::neighbour_ticks;

#[test]
fn neighbour_ticks_inside_the_schedule() {
    assert_eq!(neighbour_ticks(3, 10), (2, 3, 4));
}

#[test]
fn neighbour_ticks_at_the_ends() {
    assert_eq!(neighbour_ticks(0, 10), (0, 0, 1));
    assert_eq!(neighbour_ticks(9, 10), (8, 9, 9));
    assert_eq!(neighbour_ticks(0, 1), (0, 0, 0));
}
