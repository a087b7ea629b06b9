use solstice::position_tracker::{Position, PositionTracker, Range, TextDocumentContentChangeEvent};

enum TestAction {
    Insert {
        line: u32,
        character: u32,
        text: String,
    },
    Delete {
        start_line: u32,
        start_char: u32,
        end_line: u32,
        end_char: u32,
    },
    Replace {
        start_line: u32,
        start_char: u32,
        end_line: u32,
        end_char: u32,
        text: String,
    },
}

/// A document before and after one edit, with `→` where the hints are.
struct SolidityTest {
    description: String,
    before_content: String,
    action: TestAction,
    after_content: String,
}

impl SolidityTest {
    fn new(description: &str) -> Self {
        Self {
            description: description.to_string(),
            before_content: String::new(),
            action: TestAction::Insert {
                line: 0,
                character: 0,
                text: String::new(),
            },
            after_content: String::new(),
        }
    }

    fn before(mut self, content: &str) -> Self {
        self.before_content = content.trim().to_string();
        self
    }

    fn insert_at(mut self, line: u32, character: u32, text: &str) -> Self {
        self.action = TestAction::Insert {
            line,
            character,
            text: text.to_string(),
        };
        self
    }

    fn delete_range(mut self, start_line: u32, start_char: u32, end_line: u32, end_char: u32) -> Self {
        self.action = TestAction::Delete {
            start_line,
            start_char,
            end_line,
            end_char,
        };
        self
    }

    fn replace_range(
        mut self,
        start_line: u32,
        start_char: u32,
        end_line: u32,
        end_char: u32,
        text: &str,
    ) -> Self {
        self.action = TestAction::Replace {
            start_line,
            start_char,
            end_line,
            end_char,
            text: text.to_string(),
        };
        self
    }

    fn after(mut self, content: &str) -> Self {
        self.after_content = content.trim().to_string();
        self
    }

    fn extract_hint_positions(&self, content: &str) -> Vec<Position> {
        let mut positions = Vec::new();
        for (line_idx, line) in content.lines().enumerate() {
            for (char_idx, ch) in line.chars().enumerate() {
                if ch == '→' {
                    positions.push(Position {
                        line: line_idx as u32,
                        character: char_idx as u32,
                    });
                }
            }
        }
        positions
    }

    fn to_change_event(&self) -> TextDocumentContentChangeEvent {
        let (start, end, text) = match &self.action {
            TestAction::Insert {
                line,
                character,
                text,
            } => ((*line, *character), (*line, *character), text.clone()),
            TestAction::Delete {
                start_line,
                start_char,
                end_line,
                end_char,
            } => ((*start_line, *start_char), (*end_line, *end_char), String::new()),
            TestAction::Replace {
                start_line,
                start_char,
                end_line,
                end_char,
                text,
            } => ((*start_line, *start_char), (*end_line, *end_char), text.clone()),
        };
        TextDocumentContentChangeEvent {
            range: Some(Range {
                start: Position {
                    line: start.0,
                    character: start.1,
                },
                end: Position {
                    line: end.0,
                    character: end.1,
                },
            }),
            range_length: None,
            text,
        }
    }

    fn run(self) {
        println!("\n=== {} ===", self.description);
        let before_positions = self.extract_hint_positions(&self.before_content);
        let expected_positions = self.extract_hint_positions(&self.after_content);
        assert_eq!(
            before_positions.len(),
            expected_positions.len(),
            "Number of hint markers must match between before and after"
        );
        let change = self.to_change_event();
        let tracker = PositionTracker::new(&[change]);
        for (i, (before_pos, expected_pos)) in before_positions
            .iter()
            .zip(expected_positions.iter())
            .enumerate()
        {
            match tracker.adjust_position(*before_pos) {
                Some(actual) => {
                    if actual != *expected_pos {
                        panic!(
                            "Hint {} moved incorrectly! Before: {:?} Expected: {:?} Actual: {:?}",
                            i, before_pos, expected_pos, actual
                        );
                    }
                }
                None => panic!("Hint {} became invalid! Before: {:?}", i, before_pos),
            }
        }
    }
}

#[test]
fn test_insert_character_in_function() {
    SolidityTest::new("Insert character in function selector hint")
        .before(
            r#"
contract MyContract {
    function transfer(address to, uint256 amount) public {→
        // function body
    }
}"#,
        )
        .insert_at(1, 55, "x")
        .after(
            r#"
contract MyContract {
    function transfer(address to, uint256 amount) public {x→
        // function body
    }
}"#,
        )
        .run();
}

#[test]
fn test_add_newline_before_function() {
    SolidityTest::new("Add newline - function hint should move down")
        .before(
            r#"
contract MyContract {
    function mint(uint256 amount) external {→
        _mint(msg.sender, amount);
    }
}"#,
        )
        .insert_at(1, 0, "\n")
        .after(
            r#"
contract MyContract {

    function mint(uint256 amount) external {→
        _mint(msg.sender, amount);
    }
}"#,
        )
        .run();
}

#[test]
fn test_delete_comment_line() {
    SolidityTest::new("Delete comment line - hints should move up")
        .before(
            r#"
contract Token {
    // This comment will be deleted
    function balanceOf(address owner) view returns (uint256) {→
        return balances[owner];
    }
}"#,
        )
        .delete_range(1, 0, 2, 0)
        .after(
            r#"
contract Token {
    function balanceOf(address owner) view returns (uint256) {→
        return balances[owner];
    }
}"#,
        )
        .run();
}

#[test]
fn test_add_parameter_to_function() {
    SolidityTest::new("Add parameter - hint should move right")
        .before(
            r#"
contract MyContract {
    function approve(address spender) external {→
        allowances[msg.sender][spender] = amount;
    }
}"#,
        )
        .insert_at(1, 37, ", uint256 amount")
        .after(
            r#"
contract MyContract {
    function approve(address spender, uint256 amount) external {→
        allowances[msg.sender][spender] = amount;
    }
}"#,
        )
        .run();
}

#[test]
fn test_multiple_function_hints() {
    SolidityTest::new("Multiple functions - only affected hints should move")
        .before(
            r#"
contract ERC20 {
    function transfer(address to, uint256 amount) external {→
        _transfer(msg.sender, to, amount);
    }
    
    function approve(address spender, uint256 amount) external {→
        allowances[msg.sender][spender] = amount;
    }
}"#,
        )
        .insert_at(4, 0, "    // Added comment\n")
        .after(
            r#"
contract ERC20 {
    function transfer(address to, uint256 amount) external {→
        _transfer(msg.sender, to, amount);
    }
    // Added comment
    
    function approve(address spender, uint256 amount) external {→
        allowances[msg.sender][spender] = amount;
    }
}"#,
        )
        .run();
}

#[test]
fn test_replace_function_name() {
    SolidityTest::new("Replace function name - hint should adjust position")
        .before(
            r#"
contract MyContract {
    function mint(uint256 amount) external {→
        _mint(msg.sender, amount);
    }
}"#,
        )
        .replace_range(1, 13, 1, 17, "safeMint")
        .after(
            r#"
contract MyContract {
    function safeMint(uint256 amount) external {→
        _mint(msg.sender, amount);
    }
}"#,
        )
        .run();
}

#[test]
fn test_add_modifier_to_function() {
    SolidityTest::new("Add modifier - hint should move right")
        .before(
            r#"
contract MyContract {
    function withdraw() external {→
        payable(msg.sender).transfer(address(this).balance);
    }
}"#,
        )
        .insert_at(1, 28, " onlyOwner")
        .after(
            r#"
contract MyContract {
    function withdraw() external onlyOwner {→
        payable(msg.sender).transfer(address(this).balance);
    }
}"#,
        )
        .run();
}

#[test]
fn test_multiline_function_signature() {
    SolidityTest::new("Multiline function signature change")
        .before(
            r#"
contract MyContract {
    function complexFunction(
        address user,
        uint256 amount
    ) external {→
        // function body
    }
}"#,
        )
        .insert_at(3, 20, ",\n        bytes calldata data")
        .after(
            r#"
contract MyContract {
    function complexFunction(
        address user,
        uint256 amount,
        bytes calldata data
    ) external {→
        // function body
    }
}"#,
        )
        .run();
}

#[test]
fn test_remove_multiple_line_breaks() {
    SolidityTest::new("Remove 3 line breaks - hints should move up")
        .before(
            r#"
contract Token {
    function transfer(address to, uint256 amount) external {→



    function approve(address spender, uint256 amount) external {→
        allowances[msg.sender][spender] = amount;
    }
}"#,
        )
        .delete_range(2, 66, 6, 0)
        .after(
            r#"
contract Token {
    function transfer(address to, uint256 amount) external {→
    function approve(address spender, uint256 amount) external {→
        allowances[msg.sender][spender] = amount;
    }
}"#,
        )
        .run();
}

#[test]
fn test_format_function_signature() {
    SolidityTest::new("Format function signature - remove line break")
        .before(
            r#"
contract MyContract {
    function call_with_params(uint256 a, uint256 b)
    private returns (uint256) {→
        return a + b;
    }
}"#,
        )
        .replace_range(1, 51, 2, 4, " ")
        .after(
            r#"
contract MyContract {
    function call_with_params(uint256 a, uint256 b) private returns (uint256) {→
        return a + b;
    }
}"#,
        )
        .run();
}

#[test]
fn no_edits_leave_positions_unchanged() {
    let tracker = PositionTracker::new(&[]);
    let p = Position::new(3, 7);
    assert_eq!(tracker.adjust_position(p), Some(p));
    assert!(tracker.is_valid_position(&p));
}

#[test]
fn line_break_above_moves_position_down() {
    let change = TextDocumentContentChangeEvent {
        range: Some(Range::new(Position::new(0, 0), Position::new(0, 0))),
        range_length: None,
        text: "a\nb\n".to_string(),
    };
    let tracker = PositionTracker::new(&[change]);
    assert_eq!(tracker.adjust_position(Position::new(5, 4)), Some(Position::new(7, 4)));
    let all = tracker.adjust_positions(vec![Position::new(1, 0), Position::new(2, 9)]);
    assert_eq!(all, vec![Position::new(3, 0), Position::new(4, 9)]);
}

#[test]
fn edit_after_position_leaves_it() {
    let change = TextDocumentContentChangeEvent {
        range: Some(Range::new(Position::new(4, 2), Position::new(6, 0))),
        range_length: None,
        text: String::new(),
    };
    let tracker = PositionTracker::new(&[change]);
    assert_eq!(tracker.adjust_position(Position::new(1, 3)), Some(Position::new(1, 3)));
}
