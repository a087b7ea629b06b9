use solstice::symbol_indexer::file_entries;
use solstice::symbol_indexer::parser::ContractParser;

fn test_parser() -> ContractParser {
    ContractParser::new()
}

#[test]
fn test_simple_contract() {
    let parser = test_parser();
    let content = "contract MyContract {\n    uint256 public value;\n}";

    let contracts = parser.extract_contracts(content);

    assert_eq!(contracts.len(), 1);
    assert_eq!(contracts[0].name, "MyContract");
    assert_eq!(contracts[0].line, 0);
}

#[test]
fn test_abstract_contract() {
    let parser = test_parser();
    let content = "abstract contract AbstractToken {\n    function transfer() public virtual;\n}";

    let contracts = parser.extract_contracts(content);

    assert_eq!(contracts.len(), 1);
    assert_eq!(contracts[0].name, "AbstractToken");
}

#[test]
fn test_contract_with_inheritance() {
    let parser = test_parser();
    let content = "contract MyToken is ERC20, Ownable {\n    constructor() {}\n}";

    let contracts = parser.extract_contracts(content);

    assert_eq!(contracts.len(), 1);
    assert_eq!(contracts[0].name, "MyToken");
}

#[test]
fn test_multiple_contracts() {
    let parser = test_parser();
    let content = r#"
contract FirstContract {
    uint256 value;
}

abstract contract SecondContract {
    function doSomething() public virtual;
}

contract ThirdContract is FirstContract {
    constructor() {}
}
"#;

    let contracts = parser.extract_contracts(content);

    assert_eq!(contracts.len(), 3);
    assert_eq!(contracts[0].name, "FirstContract");
    assert_eq!(contracts[1].name, "SecondContract");
    assert_eq!(contracts[2].name, "ThirdContract");
}

#[test]
fn test_contracts_with_comments() {
    let parser = test_parser();
    let content = r#"
// This is a comment about the contract
contract MyContract { // inline comment
    uint256 value;
}

/*
 * Multi-line comment
 * describing another contract
 */
contract AnotherContract {
    /* inline multi-line */ uint256 balance;
}
"#;

    let contracts = parser.extract_contracts(content);

    assert_eq!(contracts.len(), 2);
    assert_eq!(contracts[0].name, "MyContract");
    assert_eq!(contracts[1].name, "AnotherContract");
}

#[test]
fn test_indented_contracts() {
    let parser = test_parser();
    let content = r#"
    contract IndentedContract {
        uint256 value;
    }

        abstract contract DeeplyIndented {
            function test() public virtual;
        }
"#;

    let contracts = parser.extract_contracts(content);

    assert_eq!(contracts.len(), 2);
    assert_eq!(contracts[0].name, "IndentedContract");
    assert_eq!(contracts[1].name, "DeeplyIndented");
}

#[test]
fn test_contract_without_braces() {
    let parser = test_parser();
    let content = "contract SimpleContract";

    let contracts = parser.extract_contracts(content);

    assert_eq!(contracts.len(), 1);
    assert_eq!(contracts[0].name, "SimpleContract");
}

#[test]
fn test_line_numbers() {
    let parser = test_parser();
    let content = r#"// SPDX-License-Identifier: MIT
pragma solidity ^0.8.0;

contract FirstContract {
    uint256 value;
}

contract SecondContract {
    uint256 balance;
}"#;

    let contracts = parser.extract_contracts(content);

    assert_eq!(contracts.len(), 2);
    assert_eq!(contracts[0].line, 2);
    assert_eq!(contracts[1].line, 6);
}

#[test]
fn contract_inside_a_word_is_not_a_declaration() {
    let parser = test_parser();
    let contracts = parser.extract_contracts("x contract Hidden {}\nsubcontract Other {}");
    assert_eq!(contracts.len(), 0);
}

#[test]
fn name_must_start_with_a_letter_or_underscore() {
    let parser = test_parser();
    let contracts = parser.extract_contracts("contract 9Lives {}\ncontract _Under9 {}");
    assert_eq!(contracts.len(), 1);
    assert_eq!(contracts[0].name, "_Under9");
    assert_eq!(contracts[0].line, 1);
}

#[test]
fn empty_content_has_no_contracts() {
    let parser = test_parser();
    assert!(parser.extract_contracts("").is_empty());
}

#[test]
fn each_contract_of_a_file_is_indexed_under_its_name() {
    let entries = file_entries("contract A {}\nabstract contract B is A {}\n", "src/A.sol");
    assert_eq!(entries.len(), 2);
    assert_eq!(entries[0].0, "A");
    assert_eq!(entries[1].0, "B");
    assert_eq!(entries[0].1.file_path, "src/A.sol");
    assert_eq!(entries[1].1.file_path, "src/A.sol");
    assert!(file_entries("library L {}\n", "src/L.sol").is_empty());
}
