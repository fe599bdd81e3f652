use room_search::budget::budgeted_path;
use room_search::parse::parse_init;
use room_search::phased::phased_path;
use room_search::rules::resulting_room_mut;
use room_search::search::shortest_path;

const SAMPLE_LEVEL: &str = "
###########|
#### G ####|
####OLO####|
##O#O  # ##|
#O  OOO  K#|
# OOO  OO #|
##@ O  O ##|
###########
";

#[test]
fn sample_level_is_solved() {
    let (i, m) = parse_init(SAMPLE_LEVEL.as_bytes()).unwrap();
    let path = shortest_path(&i, &m).unwrap();
    let mut room = path.start;
    for step in &path.steps {
        room = resulting_room_mut(&i, &room, step.direction).unwrap();
        assert_eq!(room, step.room);
    }
    assert_eq!(room.player_at, i.goal_at);
    assert!(room.got_key);
    let phased = phased_path(&i, &m).unwrap();
    assert_eq!(phased.steps.len(), path.steps.len());
    assert_eq!(path.steps.len(), 33);
}

#[test]
fn sample_level_within_budget() {
    let (i, m) = parse_init(SAMPLE_LEVEL.as_bytes()).unwrap();
    let exact = budgeted_path(&i, &m, 33).unwrap();
    assert_eq!(exact.steps_left, 0);
    assert_eq!(exact.path.steps.len(), 33);
    assert_eq!(budgeted_path(&i, &m, 32), None);
    let roomy = budgeted_path(&i, &m, 36).unwrap();
    assert_eq!(roomy.steps_left, 3);
    assert_eq!(roomy.path.steps.len(), 33);
    let mut room = roomy.path.start;
    assert_eq!(room, m);
    for step in &roomy.path.steps {
        room = resulting_room_mut(&i, &room, step.direction).unwrap();
        assert_eq!(room, step.room);
    }
    assert_eq!(room.player_at, i.goal_at);
}
