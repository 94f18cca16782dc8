use vstd::prelude::*;

verus! {

/// The inputs that the native processors read, before they are filled in.
pub struct ComponentProcessorInputBuffer;

/// Why a component could not be evaluated.
#[derive(Debug, Clone, Copy, PartialEq, Eq, Structural)]
pub enum RendererError {
    RequiredParamsIsNone,
    NativeProcessorOutputTypeMismatch,
    NativeProcessorNotFound,
    InvalidComponent,
}

/// The message of each error.
pub open spec fn renderer_error_message(e: RendererError) -> Seq<char> {
    match e {
        RendererError::RequiredParamsIsNone => "required params is None"@,
        RendererError::NativeProcessorOutputTypeMismatch => "NativeProcessor output type mismatch"@,
        RendererError::NativeProcessorNotFound => "NativeProcessor not found"@,
        RendererError::InvalidComponent => "invalid component"@,
    }
}

impl RendererError {
    /// The message that describes the error.
    pub fn message(&self) -> (r: &'static str)
        ensures
            r@ == renderer_error_message(*self),
    {
        match self {
            RendererError::RequiredParamsIsNone => "required params is None",
            RendererError::NativeProcessorOutputTypeMismatch => "NativeProcessor output type mismatch",
            RendererError::NativeProcessorNotFound => "NativeProcessor not found",
            RendererError::InvalidComponent => "invalid component",
        }
    }
}

} // verus!
