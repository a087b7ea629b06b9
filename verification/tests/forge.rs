use solstice::forge::{CommandArgs, Forge, ForgeError};

fn words(args: CommandArgs) -> Vec<String> {
    args.into_vec()
}

#[test]
fn forge_not_found() {
    match Forge::new(None) {
        Err(e) => {
            assert!(matches!(e, ForgeError::ForgeNotFound));
            assert_eq!(
                e.message(),
                "Forge command not found in PATH or common locations"
            );
        }
        Ok(_) => panic!("a forge without a path"),
    }
}

#[test]
fn test_command_words() {
    let forge = Forge::new(Some("forge".to_string())).ok().unwrap();
    let cmd = forge.test("test_a", "test/A.t.sol");
    assert_eq!(cmd.forge_path(), "forge");
    assert_eq!(cmd.workspace(), None);
    assert_eq!(
        words(cmd.args()),
        vec!["test", "--match-test", "test_a", "--match-path", "test/A.t.sol"]
    );
    assert_eq!(
        cmd.args().to_string(),
        "test --match-test test_a --match-path test/A.t.sol"
    );
}

#[test]
fn debug_command_words() {
    let forge = Forge::new(Some("/usr/bin/forge".to_string()))
        .ok()
        .unwrap()
        .workspace_path("/ws");
    let cmd = forge.debug("test_b", "test/B.t.sol", "/tmp/dump.json");
    assert_eq!(cmd.forge_path(), "/usr/bin/forge");
    assert_eq!(cmd.workspace(), Some("/ws"));
    assert_eq!(
        words(cmd.args()),
        vec![
            "test",
            "--debug",
            "--match-test",
            "test_b",
            "--match-path",
            "test/B.t.sol",
            "--dump",
            "/tmp/dump.json",
            "--ast",
            "--optimizer-runs",
            "0",
            "--optimize",
            "false",
            "-vvvvv"
        ]
    );
}

#[test]
fn static_builders_give_the_same_words() {
    let forge = Forge::new(Some("forge".to_string())).ok().unwrap();
    assert_eq!(
        words(solstice::tracer::Forge::test("t", "p")),
        words(forge.test("t", "p").args())
    );
    assert_eq!(
        words(solstice::tracer::Forge::debug("t", "p", "o")),
        words(forge.debug("t", "p", "o").args())
    );
}

#[test]
fn failed_command_names_the_directory() {
    let forge = Forge::new(Some("forge".to_string())).ok().unwrap();
    let e = forge.test("t", "p").failure(b"out", b"err");
    match &e {
        ForgeError::CommandFailed {
            stdout,
            stderr,
            workspace,
        } => {
            assert_eq!(stdout, "out");
            assert_eq!(stderr, "err");
            assert_eq!(workspace, ".");
        }
        _ => panic!("wrong error"),
    }
    assert_eq!(
        e.message(),
        "Forge command failed in .: stdout: out, stderr: err"
    );

    let in_ws = forge.workspace_path("/w").test("t", "p");
    let e = in_ws.command_failed("a".to_string(), "b".to_string());
    assert_eq!(e.message(), "Forge command failed in /w: stdout: a, stderr: b");
}

#[test]
fn invalid_utf8_output_is_replaced() {
    let forge = Forge::new(Some("forge".to_string())).ok().unwrap();
    let e = forge.test("t", "p").failure(&[0x66, 0xff], b"");
    match e {
        ForgeError::CommandFailed { stdout, stderr, .. } => {
            assert_eq!(stdout, "f\u{fffd}");
            assert_eq!(stderr, "");
        }
        _ => panic!("wrong error"),
    }
}

#[test]
fn io_error_message() {
    let err = std::io::Error::new(std::io::ErrorKind::Other, "boom");
    let e = ForgeError::from(err);
    assert_eq!(e.message(), "IO error: boom");
}

#[test]
fn command_args_join_with_spaces() {
    let mut args = CommandArgs::new();
    assert_eq!(args.to_string(), "");
    args.arg("a");
    assert_eq!(args.to_string(), "a");
    args.arg("b c").arg("d");
    assert_eq!(args.to_string(), "a b c d");
    assert_eq!(words(args.copy()), vec!["a", "b c", "d"]);
    assert_eq!(words(CommandArgs::default()), Vec::<String>::new());
}
