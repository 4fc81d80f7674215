use rhi::kernel_check::{check_element_layout, check_kernel_bindings, check_push_constant_layout};
use rhi::shader_parameter::{DescriptorKind, ShaderParameterType};
use rhi::shader_reflection::{
    Access, BaseShape, Binding, EntryPoint, EntryPointBinding, Parameter, ShaderReflection, Type,
};
use rhi::shader_type::{ScalarKind, TypeLayout};

fn float_buffer(access: Option<Access>) -> Type {
    Type::Resource {
        base_shape: BaseShape::StructuredBuffer,
        access,
        result_type: Some(Box::new(Type::Scalar { scalar_type: "float32".to_string() })),
    }
}

fn parameter(name: &str, ty: Type, binding: Binding) -> Parameter {
    Parameter { name: Some(name.to_string()), ty, binding: Some(binding), semantic_name: None, stage: None }
}

fn reflection(access: Option<Access>, slot: u32, push_constant: bool) -> ShaderReflection {
    let mut parameters = vec![parameter("output", float_buffer(access), Binding::DescriptorTableSlot { index: slot })];
    let mut bindings = vec![EntryPointBinding {
        name: "output".to_string(),
        binding: Binding::DescriptorTableSlot { index: slot },
    }];
    if push_constant {
        parameters.push(parameter(
            "pc",
            Type::ConstantBuffer {
                element_type: Box::new(Type::Scalar { scalar_type: "uint32".to_string() }),
                container_var_layout: None,
                element_var_layout: None,
            },
            Binding::PushConstantBuffer { index: 0 },
        ));
        bindings.push(EntryPointBinding { name: "pc".to_string(), binding: Binding::PushConstantBuffer { index: 0 } });
    }
    ShaderReflection {
        parameters,
        entry_points: vec![EntryPoint {
            name: "main".to_string(),
            stage: "compute".to_string(),
            parameters: vec![],
            result: None,
            thread_group_size: Some([64, 1, 1]),
            bindings,
        }],
        bindless_space_index: 0,
    }
}

fn output(layout: Option<TypeLayout>) -> ShaderParameterType {
    ShaderParameterType { name: "output", kind: DescriptorKind::RWStructuredBuffer, layout }
}

#[test]
fn a_matching_kernel_passes() {
    let r = reflection(Some(Access::ReadWrite), 0, false);
    let params = [output(Some(TypeLayout::Scalar(ScalarKind::Float32)))];
    assert_eq!(check_kernel_bindings(&r, "main", &params, &TypeLayout::Unit, "k.spirv"), Ok(()));
}

#[test]
fn a_missing_entry_point_is_reported() {
    let r = reflection(Some(Access::ReadWrite), 0, false);
    let params = [output(Some(TypeLayout::Scalar(ScalarKind::Float32)))];
    assert_eq!(
        check_kernel_bindings(&r, "other", &params, &TypeLayout::Unit, "k.spirv"),
        Err("missing entry point other".to_string())
    );
}

#[test]
fn a_missing_parameter_is_reported() {
    let r = reflection(Some(Access::ReadWrite), 0, false);
    let params = [ShaderParameterType { name: "input", kind: DescriptorKind::StructuredBuffer, layout: None }];
    assert_eq!(
        check_kernel_bindings(&r, "main", &params, &TypeLayout::Unit, "k.spirv"),
        Err("missing parameter output".to_string())
    );
}

#[test]
fn a_binding_at_the_wrong_slot_is_reported() {
    let r = reflection(Some(Access::ReadWrite), 1, false);
    let params = [output(Some(TypeLayout::Scalar(ScalarKind::Float32)))];
    assert_eq!(
        check_kernel_bindings(&r, "main", &params, &TypeLayout::Unit, "k.spirv"),
        Err("assertion `left == right` failed\n  left: 1\n right: 0".to_string())
    );
}

#[test]
fn a_read_only_buffer_behind_a_writable_parameter_is_reported() {
    let r = reflection(None, 0, false);
    let params = [output(Some(TypeLayout::Scalar(ScalarKind::Float32)))];
    assert_eq!(
        check_kernel_bindings(&r, "main", &params, &TypeLayout::Unit, "k.spirv"),
        Err("called `Option::unwrap()` on a `None` value".to_string())
    );
}

#[test]
fn an_element_type_mismatch_is_reported() {
    let r = reflection(Some(Access::ReadWrite), 0, false);
    let params = [output(Some(TypeLayout::Scalar(ScalarKind::Int32)))];
    assert_eq!(
        check_kernel_bindings(&r, "main", &params, &TypeLayout::Unit, "k.spirv"),
        Err("RWStructuredBuffer `output` of k.spirv does not match the host type:\n  <value>: host type is int32, shader type is float32".to_string())
    );
}

#[test]
fn a_parameter_without_a_layout_is_reported() {
    let p = output(None);
    assert_eq!(
        check_element_layout(&p, &float_buffer(Some(Access::ReadWrite)), "k.spirv"),
        Err("parameter `output` does not describe its element type; give it a RWStructuredBuffer<T> where T derives ShaderType".to_string())
    );
}

#[test]
fn an_unexpected_push_constant_block_is_reported() {
    let r = reflection(Some(Access::ReadWrite), 0, true);
    let params = [output(Some(TypeLayout::Scalar(ScalarKind::Float32)))];
    assert_eq!(
        check_kernel_bindings(&r, "main", &params, &TypeLayout::Unit, "k.spirv"),
        Err("the push constant of k.spirv:main does not match the host type:\n  (): the shader declares a push constant block, but the kernel's PushConstant type is `()`".to_string())
    );
    assert_eq!(check_push_constant_layout(&TypeLayout::Unit, "main", None, "k.spirv"), Ok(()));
}
