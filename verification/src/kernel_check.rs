//! The build-time checks of a kernel against what slangc reflected for its shader: each
//! binding of the entry point must match a host parameter of the right kind and element
//! layout, and the push constant block must match the kernel's push constant type. A failed
//! check is reported as the message the build stops with.
use vstd::prelude::*;
use crate::shader_parameter::{DescriptorKind, ShaderParameterType, kind_text};
use crate::shader_reflection::{Access, Binding, EntryPoint, EntryPointBinding, Parameter, ShaderReflection, Type};
use crate::shader_type::{
    LayoutMismatch,
    MismatchView,
    TypeLayout,
    dec,
    format_mismatches,
    mismatch_lines,
    mviews,
    nested_sizes_computable,
    push_constant_mismatches,
    size_computable,
    structured_buffer_mismatches,
    uniform_block_mismatches,
};
use crate::text::push_decimal;

verus! {

/// A layout whose sizes, and those of everything in it, fit the machine.
pub open spec fn layout_checkable(l: TypeLayout) -> bool {
    size_computable(l) && nested_sizes_computable(l)
}

/// Mismatches one per line, each indented by two spaces.
pub open spec fn view_lines(vs: Seq<MismatchView>) -> Seq<char>
    decreases vs.len(),
{
    if vs.len() == 0 {
        Seq::empty()
    } else if vs.len() == 1 {
        "  "@ + vs[0].0 + ": "@ + vs[0].1
    } else {
        view_lines(vs.drop_last()) + "\n"@ + "  "@ + vs.last().0 + ": "@ + vs.last().1
    }
}

proof fn lemma_lines(ms: Seq<LayoutMismatch>)
    ensures
        mismatch_lines(ms) == view_lines(mviews(ms)),
    decreases ms.len(),
{
    if ms.len() > 1 {
        lemma_lines(ms.drop_last());
        assert(mviews(ms.drop_last()) =~= mviews(ms).drop_last());
    }
}

/// The mismatches between a parameter's element layout and the reflected type.
pub open spec fn element_mismatches(kind: DescriptorKind, layout: TypeLayout, reflected: Type) -> Seq<
    MismatchView,
> {
    match kind {
        DescriptorKind::ConstantBuffer => uniform_block_mismatches(layout, reflected, "constant buffer"@),
        _ => structured_buffer_mismatches(layout, reflected),
    }
}

/// What checking a parameter's element type against the reflected type yields: success, or
/// the message that names the parameter and lists the mismatches.
pub open spec fn element_layout_outcome(p: ShaderParameterType, reflected: Type, shader: Seq<char>) -> Result<
    (),
    Seq<char>,
> {
    match p.layout {
        None => Err(
            "parameter `"@ + p.name@ + "` does not describe its element type; give it a "@
                + kind_text(p.kind) + "<T> where T derives ShaderType"@,
        ),
        Some(l) => {
            let ms = element_mismatches(p.kind, l, reflected);
            if ms.len() == 0 {
                Ok(())
            } else {
                Err(
                    kind_text(p.kind) + " `"@ + p.name@ + "` of "@ + shader
                        + " does not match the host type:\n"@ + view_lines(ms),
                )
            }
        },
    }
}

/// The parameter's layout, when it has one, can be checked.
pub open spec fn parameter_checkable(p: ShaderParameterType) -> bool {
    match p.layout {
        Some(l) => layout_checkable(l),
        None => true,
    }
}

/// Checks a kernel parameter's host type against the type slangc reflected for the shader
/// parameter it is bound to.
pub fn check_element_layout(parameter: &ShaderParameterType, reflected: &Type, shader: &str) -> (r:
    Result<(), String>)
    requires
        parameter_checkable(*parameter),
    ensures
        match (r, element_layout_outcome(*parameter, *reflected, shader@)) {
            (Ok(()), Ok(())) => true,
            (Err(m), Err(sm)) => m@ == sm,
            _ => false,
        },
{
    match &parameter.layout {
        None => {
            let mut m = String::from_str("parameter `");
            m.append(parameter.name);
            m.append("` does not describe its element type; give it a ");
            m.append(parameter.kind.name());
            m.append("<T> where T derives ShaderType");
            Err(m)
        },
        Some(layout) => {
            let result = match parameter.kind {
                DescriptorKind::ConstantBuffer => layout.check_constant_buffer(reflected),
                DescriptorKind::StructuredBuffer | DescriptorKind::RWStructuredBuffer => {
                    layout.check_structured_buffer(reflected)
                },
            };
            match result {
                Ok(()) => Ok(()),
                Err(mismatches) => {
                    let mut m = String::from_str(parameter.kind.name());
                    m.append(" `");
                    m.append(parameter.name);
                    m.append("` of ");
                    m.append(shader);
                    m.append(" does not match the host type:\n");
                    let lines = format_mismatches(mismatches.as_slice());
                    m.append(lines.as_str());
                    proof {
                        lemma_lines(mismatches@);
                    }
                    Err(m)
                },
            }
        },
    }
}

/// What checking a kernel's push constant type against the shader's push constant block
/// (or its absence) yields.
pub open spec fn push_constant_outcome(
    host: TypeLayout,
    expected: Option<Type>,
    shader: Seq<char>,
    entry_point: Seq<char>,
) -> Result<(), Seq<char>> {
    let ms = push_constant_mismatches(host, expected);
    if ms.len() == 0 {
        Ok(())
    } else {
        Err(
            "the push constant of "@ + shader + ":"@ + entry_point
                + " does not match the host type:\n"@ + view_lines(ms),
        )
    }
}

/// Checks a kernel's push constant layout against the `[vk::push_constant]` block the shader
/// declared, or `None` when the shader declared none.
pub fn check_push_constant_layout(
    host: &TypeLayout,
    entry_point: &str,
    expected: Option<&Parameter>,
    shader: &str,
) -> (r: Result<(), String>)
    requires
        layout_checkable(*host),
    ensures
        match (
            r,
            push_constant_outcome(
                *host,
                match expected {
                    Some(p) => Some(p.ty),
                    None => None,
                },
                shader@,
                entry_point@,
            ),
        ) {
            (Ok(()), Ok(())) => true,
            (Err(m), Err(sm)) => m@ == sm,
            _ => false,
        },
{
    let reflected = match expected {
        Some(parameter) => Some(&parameter.ty),
        None => None,
    };
    match host.check_push_constant(reflected) {
        Ok(()) => Ok(()),
        Err(mismatches) => {
            let mut m = String::from_str("the push constant of ");
            m.append(shader);
            m.append(":");
            m.append(entry_point);
            m.append(" does not match the host type:\n");
            let lines = format_mismatches(mismatches.as_slice());
            m.append(lines.as_str());
            proof {
                lemma_lines(mismatches@);
            }
            Err(m)
        },
    }
}

/// The reflected parameter has the given name.
pub open spec fn has_name(p: Parameter, name: Seq<char>) -> bool {
    p.name matches Some(n) && n@ == name
}

/// The first reflected parameter, at or after `i`, with the given name.
pub open spec fn reflected_named_from(params: Seq<Parameter>, name: Seq<char>, i: int) -> Option<int>
    decreases params.len() - i,
{
    if i < 0 || i >= params.len() {
        None
    } else if has_name(params[i], name) {
        Some(i)
    } else {
        reflected_named_from(params, name, i + 1)
    }
}

/// The first host parameter, at or after `i`, with the given name.
pub open spec fn host_named_from(ts: Seq<ShaderParameterType>, name: Seq<char>, i: int) -> Option<int>
    decreases ts.len() - i,
{
    if i < 0 || i >= ts.len() {
        None
    } else if ts[i].name@ == name {
        Some(i)
    } else {
        host_named_from(ts, name, i + 1)
    }
}

/// The first entry point, at or after `i`, with the given name.
pub open spec fn entry_point_named_from(eps: Seq<EntryPoint>, name: Seq<char>, i: int) -> Option<int>
    decreases eps.len() - i,
{
    if i < 0 || i >= eps.len() {
        None
    } else if eps[i].name@ == name {
        Some(i)
    } else {
        entry_point_named_from(eps, name, i + 1)
    }
}

/// The message of a failed `assert_eq!` on two numbers, with an optional explanation.
pub open spec fn assert_eq_message(explanation: Seq<char>, left: int, right: int) -> Seq<char> {
    "assertion `left == right` failed"@ + explanation + "\n  left: "@ + dec(left) + "\n right: "@
        + dec(right)
}

/// Whether the reflected type has the shape the parameter's kind calls for.
pub open spec fn descriptor_shape_outcome(p: ShaderParameterType, ty: Type) -> Result<(), Seq<char>> {
    match p.kind {
        DescriptorKind::ConstantBuffer => match ty {
            Type::ConstantBuffer { .. } => Ok(()),
            _ => Err("expected a ConstantBuffer at "@ + p.name@),
        },
        DescriptorKind::StructuredBuffer => match ty {
            Type::Resource { access, .. } => match access {
                None => Ok(()),
                Some(_) => Err(
                    "assertion `left == right` failed\n  left: Some(ReadWrite)\n right: None"@,
                ),
            },
            _ => Err("expected a StructuredBuffer at "@ + p.name@),
        },
        DescriptorKind::RWStructuredBuffer => match ty {
            Type::Resource { access, .. } => match access {
                None => Err("called `Option::unwrap()` on a `None` value"@),
                Some(_) => Ok(()),
            },
            _ => Err("expected a RWStructuredBuffer at "@ + p.name@),
        },
    }
}

/// The outcome of one binding of the entry point, given the push constant found so far:
/// the push constant after it, or the message the check stops with.
pub open spec fn binding_outcome(
    reflection: ShaderReflection,
    host: Seq<ShaderParameterType>,
    shader: Seq<char>,
    b: EntryPointBinding,
    push: Option<int>,
) -> Result<Option<int>, Seq<char>> {
    match reflected_named_from(reflection.parameters@, b.name@, 0) {
        None => Err("missing binding "@ + b.name@),
        Some(pi) => match b.binding {
            Binding::PushConstantBuffer { index } => if index != 0 {
                Err(
                    assert_eq_message(
                        ": only one push constant range is supported"@,
                        index as int,
                        0,
                    ),
                )
            } else if push is Some {
                Err(shader + " declares more than one push constant"@)
            } else {
                Ok(Some(pi))
            },
            _ => match host_named_from(host, b.name@, 0) {
                None => Err("missing parameter "@ + b.name@),
                Some(ti) => match b.binding {
                    Binding::DescriptorTableSlot { index } => if index != ti {
                        Err(assert_eq_message(""@, index as int, ti))
                    } else {
                        let ty = reflection.parameters@[pi].ty;
                        match descriptor_shape_outcome(host[ti], ty) {
                            Err(m) => Err(m),
                            Ok(()) => match element_layout_outcome(host[ti], ty, shader) {
                                Err(m) => Err(m),
                                Ok(()) => Ok(push),
                            },
                        }
                    },
                    _ => Err("not implemented"@),
                },
            },
        },
    }
}

/// The outcome of the entry point's bindings, in order: the push constant parameter found,
/// or the message of the first failing binding.
pub open spec fn bindings_outcome(
    reflection: ShaderReflection,
    host: Seq<ShaderParameterType>,
    shader: Seq<char>,
    bindings: Seq<EntryPointBinding>,
) -> Result<Option<int>, Seq<char>>
    decreases bindings.len(),
{
    if bindings.len() == 0 {
        Ok(None)
    } else {
        match bindings_outcome(reflection, host, shader, bindings.drop_last()) {
            Err(m) => Err(m),
            Ok(push) => binding_outcome(reflection, host, shader, bindings.last(), push),
        }
    }
}

/// What checking a kernel against its shader's reflection yields.
pub open spec fn kernel_outcome(
    reflection: ShaderReflection,
    entry_point: Seq<char>,
    host: Seq<ShaderParameterType>,
    push_constant: TypeLayout,
    shader: Seq<char>,
) -> Result<(), Seq<char>> {
    match entry_point_named_from(reflection.entry_points@, entry_point, 0) {
        None => Err("missing entry point "@ + entry_point),
        Some(ei) => match bindings_outcome(
            reflection,
            host,
            shader,
            reflection.entry_points@[ei].bindings@,
        ) {
            Err(m) => Err(m),
            Ok(push) => push_constant_outcome(
                push_constant,
                match push {
                    Some(pi) => Some(reflection.parameters@[pi].ty),
                    None => None,
                },
                shader,
                entry_point,
            ),
        },
    }
}

/// Whether a reflected type is a resource the shader may write: one with an access mode.
pub open spec fn writable_resource(ty: Type) -> bool {
    match ty {
        Type::Resource { access, .. } => access is Some,
        _ => false,
    }
}

/// A read-only structured buffer on the host is refused behind a shader resource that grants
/// write access, and a read-write one behind a resource that grants none; each is accepted
/// behind a resource of its own kind.
pub proof fn law_descriptor_access_must_agree(p: ShaderParameterType, ty: Type)
    ensures
        p.kind == DescriptorKind::StructuredBuffer && writable_resource(ty) ==> descriptor_shape_outcome(
            p,
            ty,
        ) is Err,
        p.kind == DescriptorKind::RWStructuredBuffer && (ty is Resource && !writable_resource(ty))
            ==> descriptor_shape_outcome(p, ty) is Err,
        p.kind == DescriptorKind::StructuredBuffer && (ty is Resource && !writable_resource(ty))
            ==> descriptor_shape_outcome(p, ty) is Ok,
        p.kind == DescriptorKind::RWStructuredBuffer && writable_resource(ty) ==> descriptor_shape_outcome(
            p,
            ty,
        ) is Ok,
{
}

/// Whether binding `b` puts a read-only host structured buffer at its descriptor slot behind
/// a shader resource that grants write access.
pub open spec fn read_only_behind_writable(
    reflection: ShaderReflection,
    host: Seq<ShaderParameterType>,
    b: EntryPointBinding,
) -> bool {
    match reflected_named_from(reflection.parameters@, b.name@, 0) {
        Some(pi) => match b.binding {
            Binding::DescriptorTableSlot { index } => match host_named_from(host, b.name@, 0) {
                Some(ti) => index == ti && host[ti].kind == DescriptorKind::StructuredBuffer
                    && writable_resource(reflection.parameters@[pi].ty),
                None => false,
            },
            _ => false,
        },
        None => false,
    }
}

proof fn lemma_bindings_fail(
    reflection: ShaderReflection,
    host: Seq<ShaderParameterType>,
    shader: Seq<char>,
    bs: Seq<EntryPointBinding>,
    j: int,
)
    requires
        0 <= j < bs.len(),
        read_only_behind_writable(reflection, host, bs[j]),
    ensures
        bindings_outcome(reflection, host, shader, bs) is Err,
    decreases bs.len(),
{
    if j < bs.len() - 1 {
        assert(bs.drop_last()[j] == bs[j]);
        lemma_bindings_fail(reflection, host, shader, bs.drop_last(), j);
    } else {
        let b = bs.last();
        assert(b == bs[j]);
        match bindings_outcome(reflection, host, shader, bs.drop_last()) {
            Err(_) => {},
            Ok(push) => {
                let pi = reflected_named_from(reflection.parameters@, b.name@, 0)->0;
                let ti = host_named_from(host, b.name@, 0)->0;
                law_descriptor_access_must_agree(host[ti], reflection.parameters@[pi].ty);
            },
        }
    }
}

/// A kernel whose entry point binds a read-only host structured buffer behind a shader
/// resource that grants write access fails the check, wherever that binding stands.
pub proof fn law_read_only_parameter_behind_a_writable_resource_fails(
    reflection: ShaderReflection,
    entry_point: Seq<char>,
    host: Seq<ShaderParameterType>,
    push_constant: TypeLayout,
    shader: Seq<char>,
    j: int,
)
    requires
        entry_point_named_from(reflection.entry_points@, entry_point, 0) is Some,
        0 <= j < reflection.entry_points@[entry_point_named_from(
            reflection.entry_points@,
            entry_point,
            0,
        )->0].bindings@.len(),
        read_only_behind_writable(
            reflection,
            host,
            reflection.entry_points@[entry_point_named_from(
                reflection.entry_points@,
                entry_point,
                0,
            )->0].bindings@[j],
        ),
    ensures
        kernel_outcome(reflection, entry_point, host, push_constant, shader) is Err,
{
    let ei = entry_point_named_from(reflection.entry_points@, entry_point, 0)->0;
    lemma_bindings_fail(reflection, host, shader, reflection.entry_points@[ei].bindings@, j);
}

proof fn lemma_reflected_named(params: Seq<Parameter>, name: Seq<char>, i: int)
    requires
        0 <= i <= params.len(),
        forall|j: int| 0 <= j < i ==> !has_name(#[trigger] params[j], name),
    ensures
        reflected_named_from(params, name, 0) == reflected_named_from(params, name, i),
    decreases i,
{
    if i > 0 {
        lemma_reflected_named(params, name, i - 1);
    }
}

proof fn lemma_host_named(ts: Seq<ShaderParameterType>, name: Seq<char>, i: int)
    requires
        0 <= i <= ts.len(),
        forall|j: int| 0 <= j < i ==> (#[trigger] ts[j]).name@ != name,
    ensures
        host_named_from(ts, name, 0) == host_named_from(ts, name, i),
    decreases i,
{
    if i > 0 {
        lemma_host_named(ts, name, i - 1);
    }
}

proof fn lemma_entry_named(eps: Seq<EntryPoint>, name: Seq<char>, i: int)
    requires
        0 <= i <= eps.len(),
        forall|j: int| 0 <= j < i ==> (#[trigger] eps[j]).name@ != name,
    ensures
        entry_point_named_from(eps, name, 0) == entry_point_named_from(eps, name, i),
    decreases i,
{
    if i > 0 {
        lemma_entry_named(eps, name, i - 1);
    }
}

fn find_reflected(params: &Vec<Parameter>, name: &String) -> (r: Option<usize>)
    ensures
        r matches Some(i) ==> i < params@.len(),
        match r {
            Some(i) => reflected_named_from(params@, name@, 0) == Some(i as int),
            None => reflected_named_from(params@, name@, 0) is None,
        },
{
    let mut i: usize = 0;
    while i < params.len()
        invariant
            i <= params@.len(),
            forall|j: int| 0 <= j < i ==> !has_name(#[trigger] params@[j], name@),
        decreases params@.len() - i,
    {
        let found = match &params[i].name {
            Some(n) => *n == *name,
            None => false,
        };
        if found {
            proof {
                lemma_reflected_named(params@, name@, i as int);
            }
            return Some(i);
        }
        i = i + 1;
    }
    proof {
        lemma_reflected_named(params@, name@, i as int);
    }
    None
}

fn find_host(ts: &[ShaderParameterType], name: &String) -> (r: Option<usize>)
    ensures
        r matches Some(i) ==> i < ts@.len(),
        match r {
            Some(i) => host_named_from(ts@, name@, 0) == Some(i as int),
            None => host_named_from(ts@, name@, 0) is None,
        },
{
    let mut i: usize = 0;
    while i < ts.len()
        invariant
            i <= ts@.len(),
            forall|j: int| 0 <= j < i ==> (#[trigger] ts@[j]).name@ != name@,
        decreases ts@.len() - i,
    {
        if String::from_str(ts[i].name) == *name {
            proof {
                lemma_host_named(ts@, name@, i as int);
            }
            return Some(i);
        }
        i = i + 1;
    }
    proof {
        lemma_host_named(ts@, name@, i as int);
    }
    None
}

fn find_entry_point(eps: &Vec<EntryPoint>, name: &str) -> (r: Option<usize>)
    ensures
        r matches Some(i) ==> i < eps@.len(),
        match r {
            Some(i) => entry_point_named_from(eps@, name@, 0) == Some(i as int),
            None => entry_point_named_from(eps@, name@, 0) is None,
        },
{
    let wanted = String::from_str(name);
    let mut i: usize = 0;
    while i < eps.len()
        invariant
            i <= eps@.len(),
            wanted@ == name@,
            forall|j: int| 0 <= j < i ==> (#[trigger] eps@[j]).name@ != name@,
        decreases eps@.len() - i,
    {
        if eps[i].name == wanted {
            proof {
                lemma_entry_named(eps@, name@, i as int);
            }
            return Some(i);
        }
        i = i + 1;
    }
    proof {
        lemma_entry_named(eps@, name@, i as int);
    }
    None
}

fn assert_eq_text(explanation: &str, left: u32, right: u32) -> (r: String)
    ensures
        r@ == assert_eq_message(explanation@, left as int, right as int),
{
    let mut m = String::from_str("assertion `left == right` failed");
    m.append(explanation);
    m.append("\n  left: ");
    push_decimal(&mut m, left as u64);
    m.append("\n right: ");
    push_decimal(&mut m, right as u64);
    m
}

fn check_descriptor_shape(p: &ShaderParameterType, ty: &Type) -> (r: Result<(), String>)
    ensures
        match (r, descriptor_shape_outcome(*p, *ty)) {
            (Ok(()), Ok(())) => true,
            (Err(m), Err(sm)) => m@ == sm,
            _ => false,
        },
{
    match p.kind {
        DescriptorKind::ConstantBuffer => match ty {
            Type::ConstantBuffer { .. } => Ok(()),
            _ => {
                let mut m = String::from_str("expected a ConstantBuffer at ");
                m.append(p.name);
                Err(m)
            },
        },
        DescriptorKind::StructuredBuffer => match ty {
            Type::Resource { access, .. } => match access {
                None => Ok(()),
                Some(_) => Err(
                    String::from_str(
                        "assertion `left == right` failed\n  left: Some(ReadWrite)\n right: None",
                    ),
                ),
            },
            _ => {
                let mut m = String::from_str("expected a StructuredBuffer at ");
                m.append(p.name);
                Err(m)
            },
        },
        DescriptorKind::RWStructuredBuffer => match ty {
            Type::Resource { access, .. } => match access {
                None => Err(String::from_str("called `Option::unwrap()` on a `None` value")),
                Some(_) => Ok(()),
            },
            _ => {
                let mut m = String::from_str("expected a RWStructuredBuffer at ");
                m.append(p.name);
                Err(m)
            },
        },
    }
}

/// Checks a kernel against the reflection of its shader: the entry point exists; every
/// binding of it is either the one push constant block, or a descriptor at the slot of the
/// host parameter with its name, of the shape that parameter's kind calls for and with its
/// element layout; and the push constant block matches the kernel's push constant type.
/// The first failure ends the check with its message.
pub fn check_kernel_bindings(
    reflection: &ShaderReflection,
    entry_point: &str,
    parameter_types: &[ShaderParameterType],
    push_constant: &TypeLayout,
    shader: &str,
) -> (r: Result<(), String>)
    requires
        parameter_types@.len() <= u32::MAX,
        forall|i: int| 0 <= i < parameter_types@.len() ==> parameter_checkable(
            #[trigger] parameter_types@[i],
        ),
        layout_checkable(*push_constant),
    ensures
        match (r, kernel_outcome(*reflection, entry_point@, parameter_types@, *push_constant, shader@)) {
            (Ok(()), Ok(())) => true,
            (Err(m), Err(sm)) => m@ == sm,
            _ => false,
        },
{
    let ei = match find_entry_point(&reflection.entry_points, entry_point) {
        Some(ei) => ei,
        None => {
            let mut m = String::from_str("missing entry point ");
            m.append(entry_point);
            return Err(m);
        },
    };
    let ep = &reflection.entry_points[ei];
    let ghost host = parameter_types@;
    let ghost bs = ep.bindings@;
    let mut push: Option<usize> = None;
    let mut k: usize = 0;
    while k < ep.bindings.len()
        invariant
            k <= bs.len(),
            ei < reflection.entry_points@.len(),
            entry_point_named_from(reflection.entry_points@, entry_point@, 0) == Some(ei as int),
            *ep == reflection.entry_points@[ei as int],
            bs == ep.bindings@,
            host == parameter_types@,
            host.len() <= u32::MAX,
            forall|i: int| 0 <= i < host.len() ==> parameter_checkable(#[trigger] host[i]),
            bindings_outcome(*reflection, host, shader@, bs.take(k as int)) == Ok::<
                Option<int>,
                Seq<char>,
            >(
                match push {
                    Some(pi) => Some(pi as int),
                    None => None,
                },
            ),
            match push {
                Some(pi) => pi < reflection.parameters@.len(),
                None => true,
            },
        decreases bs.len() - k,
    {
        let b = &ep.bindings[k];
        proof {
            assert(bs.take(k + 1).drop_last() =~= bs.take(k as int));
            assert(bs.take(k + 1).last() == bs[k as int]);
        }
        let pi = match find_reflected(&reflection.parameters, &b.name) {
            Some(pi) => pi,
            None => {
                let mut m = String::from_str("missing binding ");
                m.append(b.name.as_str());
                proof {
                    lemma_outcome_error_stays(*reflection, host, shader@, bs, (k + 1) as int);
                }
                return Err(m);
            },
        };
        match b.binding {
            Binding::PushConstantBuffer { index } => {
                if index != 0 {
                    let m = assert_eq_text(": only one push constant range is supported", index, 0);
                    proof {
                        lemma_outcome_error_stays(*reflection, host, shader@, bs, (k + 1) as int);
                    }
                    return Err(m);
                }
                if push.is_some() {
                    let mut m = String::from_str(shader);
                    m.append(" declares more than one push constant");
                    proof {
                        lemma_outcome_error_stays(*reflection, host, shader@, bs, (k + 1) as int);
                    }
                    return Err(m);
                }
                push = Some(pi);
            },
            _ => {
                let ti = match find_host(parameter_types, &b.name) {
                    Some(ti) => ti,
                    None => {
                        let mut m = String::from_str("missing parameter ");
                        m.append(b.name.as_str());
                        proof {
                            lemma_outcome_error_stays(*reflection, host, shader@, bs, (k + 1) as int);
                        }
                        return Err(m);
                    },
                };
                match b.binding {
                    Binding::DescriptorTableSlot { index } => {
                        let parameter_index = ti as u32;
                        if index != parameter_index {
                            let m = assert_eq_text("", index, parameter_index);
                            proof {
                                lemma_outcome_error_stays(*reflection, host, shader@, bs, (k + 1) as int);
                            }
                            return Err(m);
                        }
                        let parameter = &parameter_types[ti];
                        let ty = &reflection.parameters[pi].ty;
                        match check_descriptor_shape(parameter, ty) {
                            Ok(()) => {},
                            Err(m) => {
                                proof {
                                    lemma_outcome_error_stays(*reflection, host, shader@, bs, (k + 1) as int);
                                }
                                return Err(m);
                            },
                        }
                        match check_element_layout(parameter, ty, shader) {
                            Ok(()) => {},
                            Err(m) => {
                                proof {
                                    lemma_outcome_error_stays(*reflection, host, shader@, bs, (k + 1) as int);
                                }
                                return Err(m);
                            },
                        }
                    },
                    _ => {
                        proof {
                            lemma_outcome_error_stays(*reflection, host, shader@, bs, (k + 1) as int);
                        }
                        return Err(String::from_str("not implemented"));
                    },
                }
            },
        }
        k = k + 1;
    }
    proof {
        assert(bs.take(k as int) =~= bs);
    }
    let expected = match push {
        Some(pi) => Some(&reflection.parameters[pi]),
        None => None,
    };
    check_push_constant_layout(push_constant, entry_point, expected, shader)
}

/// Once a binding fails, the outcome of every longer prefix of the bindings is that failure.
proof fn lemma_outcome_error_stays(
    reflection: ShaderReflection,
    host: Seq<ShaderParameterType>,
    shader: Seq<char>,
    bs: Seq<EntryPointBinding>,
    k: int,
)
    requires
        0 <= k <= bs.len(),
        bindings_outcome(reflection, host, shader, bs.take(k)) is Err,
    ensures
        bindings_outcome(reflection, host, shader, bs) == bindings_outcome(
            reflection,
            host,
            shader,
            bs.take(k),
        ),
    decreases bs.len() - k,
{
    if k < bs.len() {
        assert(bs.take(k + 1).drop_last() =~= bs.take(k));
        lemma_outcome_error_stays(reflection, host, shader, bs, k + 1);
    } else {
        assert(bs.take(k) =~= bs);
    }
}

} // verus!
