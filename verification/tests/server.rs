use solstice::position_tracker::{Position, Range};
use solstice::server::{completion_object, replaces_hints, test_lenses, CodeObject};

fn range(line: u32) -> Range {
    Range::new(Position::new(line, 4), Position::new(line + 2, 5))
}

fn object(name: &str, is_function: bool, line: u32) -> CodeObject {
    CodeObject { name: name.to_string(), is_function, range: range(line) }
}

#[test]
fn newer_or_equal_hints_replace_the_held_ones() {
    assert!(replaces_hints(None, 0));
    assert!(replaces_hints(Some(3), 3));
    assert!(replaces_hints(Some(3), 4));
    assert!(!replaces_hints(Some(3), 2));
}

#[test]
fn each_test_function_gets_a_run_and_a_debug_lens() {
    let objects = vec![
        object("test_a", true, 3),
        object("helper", true, 8),
        object("test_state", false, 1),
        object("test_b", true, 12),
    ];
    let lenses = test_lenses(&objects, "/w/test/T.t.sol");
    assert_eq!(lenses.len(), 4);
    assert_eq!(lenses[0].title, "run test");
    assert_eq!(lenses[0].command, "sol.test.file");
    assert_eq!(lenses[0].arguments, vec!["/w/test/T.t.sol".to_string(), "test_a".to_string()]);
    assert_eq!(lenses[0].range, range(3));
    assert_eq!(lenses[1].title, "debug test");
    assert_eq!(lenses[1].command, "sol.debug.file");
    assert_eq!(lenses[1].arguments[1], "test_a");
    assert_eq!(lenses[2].arguments[1], "test_b");
    assert_eq!(lenses[3].range, range(12));
    assert!(test_lenses(&vec![object("tes", true, 0)], "p").is_empty());
}

#[test]
fn completion_asks_about_the_dotted_object_before_the_dot() {
    assert_eq!(completion_object("x = foo.bar.", 12), "foo.bar");
    assert_eq!(completion_object("foo.", 4), "foo");
    assert_eq!(completion_object(".foo.", 5), "foo");
    assert_eq!(completion_object("(a.", 3), "a");
    assert_eq!(completion_object("f(.", 3), "");
    assert_eq!(completion_object("a", 1), "");
}
