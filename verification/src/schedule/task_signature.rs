//! Which functions can be tasks: the parameter types of a function decide
//! the accesses that a task made of it declares.

use crate::component::component::TypeKey;
use crate::schedule::task_type::TaskType;
use vstd::prelude::*;

verus! {

/// The wrapper type through which a task function takes one of its
/// parameters.
#[derive(Debug, Clone, Copy, PartialEq, Eq, Structural)]
pub enum ParamWrapper {
    /// Read access to the components of a type.
    Comps,
    /// Write access to the components of a type.
    CompsMut,
    /// Read access to the resource of a type.
    Res,
    /// Write access to the resource of a type.
    ResMut,
    /// The command buffer.
    Commands,
}

/// What stands in the angle brackets behind the last segment of the path of
/// a parameter's type.
#[derive(Debug, Clone, Copy, PartialEq, Eq, Structural)]
pub enum FirstArgument {
    /// The segment has no angle brackets.
    NoBrackets,
    /// The first argument in the brackets is a type.
    Type,
    /// The brackets are empty, or their first argument is no type.
    NoType,
}

/// What the adapter from functions to tasks needs to know of one parameter
/// of a function.
pub struct TaskParam {
    /// Whether the type of the parameter is a path.
    pub is_path: bool,
    /// The segments of the path, joined by `::`.
    pub path: String,
    /// Whether some segment of the path has empty angle brackets.
    pub has_empty_brackets: bool,
    /// What the last segment of the path has in its angle brackets.
    pub argument: FirstArgument,
}

/// Why a function cannot be a task.
#[derive(Debug, Clone, Copy, PartialEq, Eq, Structural)]
pub enum SignatureError {
    /// The function returns a value.
    ReturnsValue,
    /// Some parameter has a type with empty angle brackets.
    EmptyBrackets,
    /// The type of the parameter at this position is no path.
    NotAPath(usize),
    /// The parameter at this position has a type without arguments that is
    /// not the command buffer.
    NotCommands(usize),
    /// The parameter at this position has a type with arguments that is
    /// none of the four wrappers, or whose first argument is no type.
    UnknownWrapper(usize),
}

impl ParamWrapper {
    /// The access that a task declares for a parameter with this wrapper
    /// round the type with the key `key`. The command buffer stands for
    /// access to the entity table, whatever the key.
    pub open spec fn access(self, key: TypeKey) -> TaskType {
        match self {
            ParamWrapper::Comps => TaskType::Comp(key),
            ParamWrapper::CompsMut => TaskType::CompMut(key),
            ParamWrapper::Res => TaskType::Res(key),
            ParamWrapper::ResMut => TaskType::ResMut(key),
            ParamWrapper::Commands => TaskType::Entities(),
        }
    }

    /// The access that a task declares for a parameter with this wrapper
    /// round the type with the key `key`.
    pub fn declared_access(&self, key: TypeKey) -> (access: TaskType)
        ensures
            access == self.access(key),
    {
        match self {
            ParamWrapper::Comps => TaskType::Comp(key),
            ParamWrapper::CompsMut => TaskType::CompMut(key),
            ParamWrapper::Res => TaskType::Res(key),
            ParamWrapper::ResMut => TaskType::ResMut(key),
            ParamWrapper::Commands => TaskType::Entities(),
        }
    }
}

/// The wrapper with arguments that has the name `path`.
pub open spec fn wrapper_named(path: Seq<char>) -> Option<ParamWrapper> {
    if path == "Comps"@ {
        Some(ParamWrapper::Comps)
    } else if path == "CompsMut"@ {
        Some(ParamWrapper::CompsMut)
    } else if path == "Res"@ {
        Some(ParamWrapper::Res)
    } else if path == "ResMut"@ {
        Some(ParamWrapper::ResMut)
    } else {
        None
    }
}

/// The wrapper of the parameter at position `at`, or why the parameter
/// cannot be taken.
pub open spec fn wrapper_of(param: TaskParam, at: usize) -> Result<ParamWrapper, SignatureError> {
    if !param.is_path {
        Err(SignatureError::NotAPath(at))
    } else {
        match param.argument {
            FirstArgument::NoBrackets => if param.path@ == "Commands"@ {
                Ok(ParamWrapper::Commands)
            } else {
                Err(SignatureError::NotCommands(at))
            },
            FirstArgument::Type => match wrapper_named(param.path@) {
                Some(wrapper) => Ok(wrapper),
                None => Err(SignatureError::UnknownWrapper(at)),
            },
            FirstArgument::NoType => Err(SignatureError::UnknownWrapper(at)),
        }
    }
}

/// No parameter has a type with empty angle brackets.
pub open spec fn all_brackets_filled(params: Seq<TaskParam>) -> bool {
    forall|i: int| 0 <= i < params.len() ==> !(#[trigger] params[i]).has_empty_brackets
}

/// The parameter at position `at` is the first that cannot be taken, for
/// the reason `error`.
pub open spec fn first_refused(params: Seq<TaskParam>, at: int, error: SignatureError) -> bool {
    &&& 0 <= at < params.len()
    &&& wrapper_of(params[at], at as usize) == Err::<ParamWrapper, SignatureError>(error)
    &&& forall|i: int| 0 <= i < at ==> wrapper_of(#[trigger] params[i], i as usize) is Ok
}

/// The wrapper with arguments that has the name `path`, if there is one.
pub fn find_wrapper(path: &String) -> (wrapper: Option<ParamWrapper>)
    ensures
        wrapper == wrapper_named(path@),
{
    if *path == "Comps".to_owned() {
        Some(ParamWrapper::Comps)
    } else if *path == "CompsMut".to_owned() {
        Some(ParamWrapper::CompsMut)
    } else if *path == "Res".to_owned() {
        Some(ParamWrapper::Res)
    } else if *path == "ResMut".to_owned() {
        Some(ParamWrapper::ResMut)
    } else {
        None
    }
}

/// The wrapper of the parameter `param` at position `at`, or why the
/// parameter cannot be taken.
pub fn classify(param: &TaskParam, at: usize) -> (wrapper: Result<ParamWrapper, SignatureError>)
    ensures
        wrapper == wrapper_of(*param, at),
{
    if !param.is_path {
        return Err(SignatureError::NotAPath(at));
    }
    match param.argument {
        FirstArgument::NoBrackets => {
            if param.path == "Commands".to_owned() {
                Ok(ParamWrapper::Commands)
            } else {
                Err(SignatureError::NotCommands(at))
            }
        },
        FirstArgument::Type => {
            match find_wrapper(&param.path) {
                Some(wrapper) => Ok(wrapper),
                None => Err(SignatureError::UnknownWrapper(at)),
            }
        },
        FirstArgument::NoType => Err(SignatureError::UnknownWrapper(at)),
    }
}

/// Whether no parameter has a type with empty angle brackets.
pub fn check_fn_args_for_generics(params: &Vec<TaskParam>) -> (filled: bool)
    ensures
        filled == all_brackets_filled(params@),
{
    let mut i: usize = 0;
    while i < params.len()
        invariant
            i <= params@.len(),
            forall|k: int| 0 <= k < i ==> !(#[trigger] params@[k]).has_empty_brackets,
        decreases params.len() - i,
    {
        if params[i].has_empty_brackets {
            return false;
        }
        i += 1;
    }
    true
}

/// The wrappers of the parameters of a function that can be a task, in the
/// order of the parameters. A function cannot be a task where it returns a
/// value, where a type has empty angle brackets, or where a parameter has
/// no wrapper; of several reasons the first in this order counts, and of
/// several parameters without a wrapper the first.
pub fn task_parameters(returns_unit: bool, params: &Vec<TaskParam>) -> (wrappers: Result<
    Vec<ParamWrapper>,
    SignatureError,
>)
    ensures
        match wrappers {
            Ok(list) => {
                &&& returns_unit
                &&& all_brackets_filled(params@)
                &&& list@.len() == params@.len()
                &&& forall|i: int|
                    0 <= i < params@.len()
                        ==> wrapper_of(#[trigger] params@[i], i as usize) == Ok::<
                        ParamWrapper,
                        SignatureError,
                    >(list@[i])
            },
            Err(SignatureError::ReturnsValue) => !returns_unit,
            Err(SignatureError::EmptyBrackets) => returns_unit && !all_brackets_filled(params@),
            Err(error) => {
                &&& returns_unit
                &&& all_brackets_filled(params@)
                &&& exists|at: int| first_refused(params@, at, error)
            },
        },
{
    if !returns_unit {
        return Err(SignatureError::ReturnsValue);
    }
    if !check_fn_args_for_generics(params) {
        return Err(SignatureError::EmptyBrackets);
    }
    let mut list: Vec<ParamWrapper> = Vec::new();
    let mut at: usize = 0;
    while at < params.len()
        invariant
            returns_unit,
            all_brackets_filled(params@),
            at <= params@.len(),
            list@.len() == at,
            forall|i: int|
                0 <= i < at ==> wrapper_of(#[trigger] params@[i], i as usize) == Ok::<
                    ParamWrapper,
                    SignatureError,
                >(list@[i]),
        decreases params.len() - at,
    {
        match classify(&params[at], at) {
            Ok(wrapper) => {
                list.push(wrapper);
            },
            Err(error) => {
                proof {
                    assert(first_refused(params@, at as int, error));
                }
                return Err(error);
            },
        }
        at += 1;
    }
    Ok(list)
}

} // verus!
