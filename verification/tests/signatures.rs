use cow_ecs::schedule::task_signature::{
    check_fn_args_for_generics, classify, find_wrapper, task_parameters, FirstArgument,
    ParamWrapper, SignatureError, TaskParam,
};
use cow_ecs::schedule::task_type::TaskType;

fn param(path: &str, argument: FirstArgument) -> TaskParam {
    TaskParam { is_path: true, path: path.to_string(), has_empty_brackets: false, argument }
}

#[test]
fn the_four_wrappers_are_known_by_name() {
    assert_eq!(find_wrapper(&"Comps".to_string()), Some(ParamWrapper::Comps));
    assert_eq!(find_wrapper(&"CompsMut".to_string()), Some(ParamWrapper::CompsMut));
    assert_eq!(find_wrapper(&"Res".to_string()), Some(ParamWrapper::Res));
    assert_eq!(find_wrapper(&"ResMut".to_string()), Some(ParamWrapper::ResMut));
    assert_eq!(find_wrapper(&"Commands".to_string()), None);
    assert!(find_wrapper(&"comps".to_string()).is_none());
    assert!(find_wrapper(&"cow_ecs::comps::Comps".to_string()).is_none());
    assert!(find_wrapper(&String::new()).is_none());
}

#[test]
fn wrappers_declare_their_access() {
    assert_eq!(ParamWrapper::Comps.declared_access(3), TaskType::Comp(3));
    assert_eq!(ParamWrapper::CompsMut.declared_access(3), TaskType::CompMut(3));
    assert_eq!(ParamWrapper::Res.declared_access(4), TaskType::Res(4));
    assert_eq!(ParamWrapper::ResMut.declared_access(4), TaskType::ResMut(4));
    assert_eq!(ParamWrapper::Commands.declared_access(5), TaskType::Entities());
}

#[test]
fn commands_is_the_only_wrapper_without_brackets() {
    assert!(matches!(
        classify(&param("Commands", FirstArgument::NoBrackets), 0),
        Ok(ParamWrapper::Commands)
    ));
    assert!(matches!(
        classify(&param("Comps", FirstArgument::NoBrackets), 2),
        Err(SignatureError::NotCommands(2))
    ));
    assert!(matches!(
        classify(&param("Commands", FirstArgument::Type), 1),
        Err(SignatureError::UnknownWrapper(1))
    ));
    assert!(matches!(
        classify(&param("Comps", FirstArgument::NoType), 1),
        Err(SignatureError::UnknownWrapper(1))
    ));
}

#[test]
fn a_type_that_is_no_path_is_refused() {
    let reference = TaskParam {
        is_path: false,
        path: "Comps".to_string(),
        has_empty_brackets: false,
        argument: FirstArgument::Type,
    };
    assert!(matches!(classify(&reference, 4), Err(SignatureError::NotAPath(4))));
}

#[test]
fn a_task_function_gets_one_wrapper_per_parameter() {
    let params = vec![
        param("CompsMut", FirstArgument::Type),
        param("Res", FirstArgument::Type),
        param("Commands", FirstArgument::NoBrackets),
        param("Comps", FirstArgument::Type),
        param("ResMut", FirstArgument::Type),
    ];
    assert!(check_fn_args_for_generics(&params));
    assert_eq!(
        task_parameters(true, &params),
        Ok(vec![
            ParamWrapper::CompsMut,
            ParamWrapper::Res,
            ParamWrapper::Commands,
            ParamWrapper::Comps,
            ParamWrapper::ResMut,
        ])
    );
    assert_eq!(task_parameters(true, &Vec::new()), Ok(Vec::new()));
}

#[test]
fn the_first_reason_counts() {
    let mut empty = param("Comps", FirstArgument::NoType);
    empty.has_empty_brackets = true;
    let unknown = param("Query", FirstArgument::Type);
    let plain = param("World", FirstArgument::NoBrackets);
    let good = param("Comps", FirstArgument::Type);
    assert!(matches!(
        task_parameters(false, &vec![param("Query", FirstArgument::Type), param("Comps", FirstArgument::NoType)]),
        Err(SignatureError::ReturnsValue)
    ));
    let with_empty = vec![unknown, empty];
    assert!(!check_fn_args_for_generics(&with_empty));
    assert!(matches!(task_parameters(true, &with_empty), Err(SignatureError::EmptyBrackets)));
    let two_bad = vec![good, plain, param("Query", FirstArgument::Type)];
    assert!(matches!(task_parameters(true, &two_bad), Err(SignatureError::NotCommands(1))));
    let later = vec![
        param("Comps", FirstArgument::Type),
        param("Commands", FirstArgument::NoBrackets),
        param("Query", FirstArgument::Type),
    ];
    assert!(matches!(task_parameters(true, &later), Err(SignatureError::UnknownWrapper(2))));
}
