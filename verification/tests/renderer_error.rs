use mpdelta::composite_operation::{CompositeOperationConstant, BLOCK_SIZE};
use mpdelta::project_serialize::{ComponentInstanceHandleForSerialize, MarkerPinHandleForSerialize, PinIndex};
use mpdelta::renderer_error::RendererError;

#[test]
fn renderer_error_messages() {
    assert_eq!(RendererError::RequiredParamsIsNone.message(), "required params is None");
    assert_eq!(RendererError::NativeProcessorOutputTypeMismatch.message(), "NativeProcessor output type mismatch");
    assert_eq!(RendererError::NativeProcessorNotFound.message(), "NativeProcessor not found");
    assert_eq!(RendererError::InvalidComponent.message(), "invalid component");
}

#[test]
fn composite_operation_constant_fields() {
    let c = CompositeOperationConstant { composite: 1, blend: 2, image_width: 1920, image_height: 1080 };
    assert_eq!(c, CompositeOperationConstant { composite: 1, blend: 2, image_width: 1920, image_height: 1080 });
    assert_eq!(BLOCK_SIZE, 32);
}

#[test]
fn marker_pin_handles_compare_by_fields() {
    let a = MarkerPinHandleForSerialize { component: Some(3), index: PinIndex::Marker(1) };
    let b = MarkerPinHandleForSerialize { component: Some(3), index: PinIndex::Marker(1) };
    let c = MarkerPinHandleForSerialize { component: None, index: PinIndex::Left };
    assert_eq!(a, b);
    assert_ne!(a, c);
    assert_ne!(PinIndex::Left, PinIndex::Right);
    assert_eq!(ComponentInstanceHandleForSerialize { component: 4 }, ComponentInstanceHandleForSerialize { component: 4 });
}
