use maze_solver::Config;

#[test]
fn build_needs_a_path() {
    let args = vec!["maze".to_string()];
    assert_eq!(Config::build(&args).err(), Some("Not enough arguments!"));
}

#[test]
fn build_takes_first_argument() {
    let args = vec!["maze".to_string(), "in.png".to_string(), "extra".to_string()];
    assert_eq!(Config::build(&args).unwrap().maze_path, "in.png");
}
