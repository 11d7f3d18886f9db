use vstd::prelude::*;

verus! {

/// `prefix` followed by `detail`.
fn prefixed(prefix: &str, detail: &String) -> (r: String)
    ensures
        r@ == prefix@ + detail@,
{
    String::from_str(prefix).concat(detail.as_str())
}

#[derive(Clone, Debug, PartialEq, Eq)]
pub enum BackendError {
    CodeGen(String),
    LLVM(String),
    Target(String),
    Internal(String),
}

impl BackendError {
    pub fn message(&self) -> (r: String)
        ensures
            self matches BackendError::CodeGen(s) ==> r@ == "Code generation error: "@ + s@,
            self matches BackendError::LLVM(s) ==> r@ == "LLVM error: "@ + s@,
            self matches BackendError::Target(s) ==> r@ == "Target error: "@ + s@,
            self matches BackendError::Internal(s) ==> r@ == "Internal error: "@ + s@,
    {
        match self {
            BackendError::CodeGen(s) => prefixed("Code generation error: ", s),
            BackendError::LLVM(s) => prefixed("LLVM error: ", s),
            BackendError::Target(s) => prefixed("Target error: ", s),
            BackendError::Internal(s) => prefixed("Internal error: ", s),
        }
    }
}

#[derive(Clone, Debug, PartialEq, Eq)]
pub enum FrontendError {
    Lexical(String),
    Syntax(String),
    Type(String),
    Internal(String),
}

impl FrontendError {
    pub fn message(&self) -> (r: String)
        ensures
            self matches FrontendError::Lexical(s) ==> r@ == "Lexical error: "@ + s@,
            self matches FrontendError::Syntax(s) ==> r@ == "Syntax error: "@ + s@,
            self matches FrontendError::Type(s) ==> r@ == "Type error: "@ + s@,
            self matches FrontendError::Internal(s) ==> r@ == "Internal error: "@ + s@,
    {
        match self {
            FrontendError::Lexical(s) => prefixed("Lexical error: ", s),
            FrontendError::Syntax(s) => prefixed("Syntax error: ", s),
            FrontendError::Type(s) => prefixed("Type error: ", s),
            FrontendError::Internal(s) => prefixed("Internal error: ", s),
        }
    }
}

#[derive(Clone, Debug, PartialEq, Eq)]
pub enum IRError {
    InvalidOperation(String),
    TypeMismatch(String),
    VerificationFailed(String),
    Internal(String),
}

impl IRError {
    pub fn message(&self) -> (r: String)
        ensures
            self matches IRError::InvalidOperation(s) ==> r@ == "Invalid IR operation: "@ + s@,
            self matches IRError::TypeMismatch(s) ==> r@ == "Type mismatch: "@ + s@,
            self matches IRError::VerificationFailed(s) ==> r@ == "Verification failed: "@ + s@,
            self matches IRError::Internal(s) ==> r@ == "Internal error: "@ + s@,
    {
        match self {
            IRError::InvalidOperation(s) => prefixed("Invalid IR operation: ", s),
            IRError::TypeMismatch(s) => prefixed("Type mismatch: ", s),
            IRError::VerificationFailed(s) => prefixed("Verification failed: ", s),
            IRError::Internal(s) => prefixed("Internal error: ", s),
        }
    }
}

#[derive(Clone, Debug, PartialEq, Eq)]
pub enum RuntimeError {
    Process(String),
    Resource(String),
    Event(String),
    Time(String),
    Memory(String),
    Internal(String),
}

impl RuntimeError {
    pub fn message(&self) -> (r: String)
        ensures
            self matches RuntimeError::Process(s) ==> r@ == "Process error: "@ + s@,
            self matches RuntimeError::Resource(s) ==> r@ == "Resource error: "@ + s@,
            self matches RuntimeError::Event(s) ==> r@ == "Event error: "@ + s@,
            self matches RuntimeError::Time(s) ==> r@ == "Time error: "@ + s@,
            self matches RuntimeError::Memory(s) ==> r@ == "Memory error: "@ + s@,
            self matches RuntimeError::Internal(s) ==> r@ == "Internal error: "@ + s@,
    {
        match self {
            RuntimeError::Process(s) => prefixed("Process error: ", s),
            RuntimeError::Resource(s) => prefixed("Resource error: ", s),
            RuntimeError::Event(s) => prefixed("Event error: ", s),
            RuntimeError::Time(s) => prefixed("Time error: ", s),
            RuntimeError::Memory(s) => prefixed("Memory error: ", s),
            RuntimeError::Internal(s) => prefixed("Internal error: ", s),
        }
    }
}

#[derive(Clone, Debug, PartialEq, Eq)]
pub enum TestError {
    TestFailure(String),
    SetupError(String),
    CleanupError(String),
    Internal(String),
}

impl TestError {
    pub fn message(&self) -> (r: String)
        ensures
            self matches TestError::TestFailure(s) ==> r@ == "Test failure: "@ + s@,
            self matches TestError::SetupError(s) ==> r@ == "Setup error: "@ + s@,
            self matches TestError::CleanupError(s) ==> r@ == "Cleanup error: "@ + s@,
            self matches TestError::Internal(s) ==> r@ == "Internal error: "@ + s@,
    {
        match self {
            TestError::TestFailure(s) => prefixed("Test failure: ", s),
            TestError::SetupError(s) => prefixed("Setup error: ", s),
            TestError::CleanupError(s) => prefixed("Cleanup error: ", s),
            TestError::Internal(s) => prefixed("Internal error: ", s),
        }
    }
}

#[derive(Clone, Debug, PartialEq, Eq)]
pub enum VerificationError {
    PropertyViolation(String),
    InvariantViolation(String),
    ModelError(String),
    Internal(String),
}

impl VerificationError {
    pub fn message(&self) -> (r: String)
        ensures
            self matches VerificationError::PropertyViolation(s) ==> r@ == "Property violation: "@ + s@,
            self matches VerificationError::InvariantViolation(s) ==> r@ == "Invariant violation: "@ + s@,
            self matches VerificationError::ModelError(s) ==> r@ == "Model error: "@ + s@,
            self matches VerificationError::Internal(s) ==> r@ == "Internal error: "@ + s@,
    {
        match self {
            VerificationError::PropertyViolation(s) => prefixed("Property violation: ", s),
            VerificationError::InvariantViolation(s) => prefixed("Invariant violation: ", s),
            VerificationError::ModelError(s) => prefixed("Model error: ", s),
            VerificationError::Internal(s) => prefixed("Internal error: ", s),
        }
    }
}

} // verus!
