use mini_repl::command::CommandArgInfo;
use mini_repl::command::CommandArgType;
use mini_repl::command::ArgsError;
use mini_repl::command::Validator;

#[test]
fn validator_no_args() {
    let arg_types = vec![];
    assert!(Validator::validate(vec![], arg_types.clone()).is_ok());
    assert!(Validator::validate(vec!["hello".into()], arg_types.clone()).is_err())
}

#[test]
fn validator_one_arg() {
    let arg_types = vec![CommandArgInfo::new(CommandArgType::I32)];
    assert!(Validator::validate(vec![], arg_types.clone()).is_err());
    assert!(Validator::validate(vec!["hello".into()], arg_types.clone()).is_err());
    assert!(Validator::validate(vec!["13".into()], arg_types.clone()).is_ok())
}

#[test]
fn validator_multiple_args() {
    let arg_types = vec![
        CommandArgInfo::new(CommandArgType::I32),
        CommandArgInfo::new(CommandArgType::F32),
        CommandArgInfo::new(CommandArgType::Text),
    ];

    assert!(Validator::validate(vec![], arg_types.clone()).is_err());
    assert!(
        Validator::validate(
            vec!["1".into(), "2.1".into(), "hello".into()],
            arg_types.clone()
        )
        .is_ok()
    );
    assert!(
        Validator::validate(
            vec!["1.2".into(), "2.1".into(), "hello".into()],
            arg_types.clone()
        )
        .is_err()
    );
    assert!(
        Validator::validate(
            vec!["1".into(), "a".into(), "hello".into()],
            arg_types.clone()
        )
        .is_err()
    );
    assert!(
        Validator::validate(
            vec!["1".into(), "2.1".into(), "hello".into(), "world".into()],
            arg_types.clone()
        )
        .is_err()
    );
}

#[test]
fn validator_integer_bounds() {
    let arg_types = vec![CommandArgInfo::new(CommandArgType::I32)];
    assert!(Validator::validate(vec!["2147483647".into()], arg_types.clone()).is_ok());
    assert!(Validator::validate(vec!["-2147483648".into()], arg_types.clone()).is_ok());
    assert!(Validator::validate(vec!["2147483648".into()], arg_types.clone()).is_err());
    assert!(Validator::validate(vec!["-2147483649".into()], arg_types.clone()).is_err());
    assert!(Validator::validate(vec!["+7".into()], arg_types.clone()).is_ok());
    assert!(Validator::validate(vec!["".into()], arg_types.clone()).is_err());
    assert!(Validator::validate(vec!["1x".into()], arg_types.clone()).is_err());
    assert!(Validator::validate(vec!["00000000000000000001".into()], arg_types.clone()).is_ok());
}

#[test]
fn validator_float_forms() {
    let arg_types = vec![CommandArgInfo::new(CommandArgType::F32)];
    for good in ["2.1", "1e5", ".5", "5.", "-3", "inf", "-Infinity", "NaN", "1.2E+3"] {
        assert!(
            Validator::validate(vec![good.into()], arg_types.clone()).is_ok(),
            "{} should be accepted",
            good
        );
    }
    for bad in [".", "1e", "e5", "--1", "1.2.3", "1_000", "x", ""] {
        assert!(
            Validator::validate(vec![bad.into()], arg_types.clone()).is_err(),
            "{} should be rejected",
            bad
        );
    }
}

#[test]
fn validator_error_messages() {
    let arg_types = vec![CommandArgInfo::new(CommandArgType::I32)];
    match Validator::validate(vec!["a".into(), "b".into()], arg_types.clone()) {
        Err(e @ ArgsError::WrongNumberOfArguments { got: 2, expected: 1 }) => {
            assert_eq!(
                e.message(),
                "wrong number of arguments: got 2, expected 1"
            );
        }
        other => panic!("wrong outcome: {:?}", other),
    }
    match Validator::validate(vec!["x".into()], arg_types.clone()) {
        Err(e @ ArgsError::WrongArgumentValue { .. }) => {
            assert_eq!(
                e.message(),
                "failed to parse argument value 'x': invalid digit found in string"
            );
        }
        other => panic!("wrong outcome: {:?}", other),
    }
    let floats = vec![CommandArgInfo::new(CommandArgType::F32)];
    match Validator::validate(vec![".".into()], floats) {
        Err(e) => assert_eq!(
            e.message(),
            "failed to parse argument value '.': invalid float literal"
        ),
        other => panic!("wrong outcome: {:?}", other),
    }
}

#[test]
fn arg_info_to_string() {
    let unnamed = CommandArgInfo::new(CommandArgType::F32);
    assert_eq!(unnamed.to_string(), ":f32");
    let named = CommandArgInfo::new_with_name(CommandArgType::I32, "count");
    assert_eq!(named.to_string(), "count:i32");
    let text = CommandArgInfo::new_with_name(CommandArgType::Text, "word");
    assert_eq!(text.to_string(), "word:String");
    let custom = CommandArgInfo::new_with_name(CommandArgType::Custom, "addr");
    assert_eq!(custom.to_string(), "addr:Custom");
}
