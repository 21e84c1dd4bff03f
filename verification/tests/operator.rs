use sdf_graph::graph::Connected;
use sdf_graph::interaction::InteractionState;
use sdf_graph::operator::{
    ConnectionType, Connectivity, DomainType, Op, OpFamily, Parameters, PrimitiveType,
    PARAMETER_CAPACITY,
};

fn all_families() -> Vec<OpFamily> {
    vec![
        OpFamily::Domain(DomainType::Root),
        OpFamily::Domain(DomainType::Transform),
        OpFamily::Domain(DomainType::Twist),
        OpFamily::Domain(DomainType::Bend),
        OpFamily::Primitive(PrimitiveType::Sphere),
        OpFamily::Primitive(PrimitiveType::Box),
        OpFamily::Primitive(PrimitiveType::Plane),
        OpFamily::Primitive(PrimitiveType::Torus),
        OpFamily::Primitive(PrimitiveType::Union),
        OpFamily::Primitive(PrimitiveType::Subtraction),
        OpFamily::Primitive(PrimitiveType::Intersection),
        OpFamily::Primitive(PrimitiveType::SmoothMinimum),
        OpFamily::Primitive(PrimitiveType::Render),
    ]
}

#[test]
fn family_names() {
    let names: Vec<&str> = all_families().iter().map(|f| f.to_string()).collect();
    assert_eq!(
        names,
        vec![
            "root",
            "transform",
            "twist",
            "bend",
            "sphere",
            "box",
            "plane",
            "torus",
            "union",
            "subtraction",
            "intersection",
            "smooth_minimum",
            "render"
        ]
    );
}

#[test]
fn input_capacities() {
    let capacities: Vec<usize> = all_families().iter().map(|f| f.get_input_capacity()).collect();
    assert_eq!(capacities, vec![0, 1, 1, 1, 1, 1, 1, 1, 2, 2, 2, 2, 1]);
}

#[test]
fn only_the_root_domain_takes_no_inputs() {
    for family in all_families() {
        assert_eq!(family.has_inputs(), family != OpFamily::Domain(DomainType::Root));
    }
}

#[test]
fn only_the_render_operator_gives_no_outputs() {
    for family in all_families() {
        assert_eq!(
            family.has_outputs(),
            family != OpFamily::Primitive(PrimitiveType::Render)
        );
    }
}

#[test]
fn connectivity_follows_the_slots() {
    for family in all_families() {
        let expected = match (family.has_inputs(), family.has_outputs()) {
            (true, true) => Connectivity::InputOutput,
            (true, false) => Connectivity::Input,
            _ => Connectivity::Output,
        };
        assert_eq!(family.get_connectivity(), expected);
    }
    assert_eq!(
        OpFamily::Domain(DomainType::Root).get_connectivity(),
        Connectivity::Output
    );
    assert_eq!(
        OpFamily::Primitive(PrimitiveType::Render).get_connectivity(),
        Connectivity::Input
    );
    assert_eq!(
        OpFamily::Primitive(PrimitiveType::Union).get_connectivity(),
        Connectivity::InputOutput
    );
}

#[test]
fn code_templates() {
    assert_eq!(
        OpFamily::Primitive(PrimitiveType::Sphere).get_code_template(),
        "float NAME = sdf_sphere(p_INPUT_A, vec3(0.0), 1.0) * s_INPUT_A;"
    );
    assert_eq!(
        OpFamily::Primitive(PrimitiveType::Box).get_code_template(),
        "float NAME = sdf_box(p_INPUT_A, vec3(1.0)) * s_INPUT_A;"
    );
    assert_eq!(
        OpFamily::Primitive(PrimitiveType::Plane).get_code_template(),
        "float NAME = sdf_plane(p_INPUT_A, -1.0) * s_INPUT_A;"
    );
    assert_eq!(
        OpFamily::Primitive(PrimitiveType::Torus).get_code_template(),
        "float NAME = sdf_torus(p_INPUT_A, vec2(1.0, 0.5)) * s_INPUT_A;"
    );
    assert_eq!(
        OpFamily::Primitive(PrimitiveType::Union).get_code_template(),
        "float NAME = op_union(INPUT_A, INPUT_B);"
    );
    assert_eq!(
        OpFamily::Primitive(PrimitiveType::Subtraction).get_code_template(),
        "float NAME = op_subtract(INPUT_A, INPUT_B);"
    );
    assert_eq!(
        OpFamily::Primitive(PrimitiveType::Intersection).get_code_template(),
        "float NAME = op_intersect(INPUT_A, INPUT_B);"
    );
    assert_eq!(
        OpFamily::Primitive(PrimitiveType::SmoothMinimum).get_code_template(),
        "float NAME = op_smooth_min(INPUT_A, INPUT_B, params[INDEX].x);"
    );
    assert_eq!(
        OpFamily::Primitive(PrimitiveType::Render).get_code_template(),
        "float NAME = INPUT_A;"
    );
    assert_eq!(
        OpFamily::Domain(DomainType::Root).get_code_template(),
        "
                    vec3 p_NAME = p;
                    float s_NAME = 1.0;"
    );
    assert_eq!(
        OpFamily::Domain(DomainType::Transform).get_code_template(),
        "
                    float s_NAME = params[INDEX].w * s_INPUT_A;
                    vec3 t_NAME = params[INDEX].xyz;
                    vec3 p_NAME = p_INPUT_A / s_NAME + t_NAME;"
    );
    assert_eq!(
        OpFamily::Domain(DomainType::Twist).get_code_template(),
        "
                    float s_NAME = s_INPUT_A;
                    vec3 p_NAME = domain_twist(p_INPUT_A, params[INDEX].x);"
    );
    assert_eq!(
        OpFamily::Domain(DomainType::Bend).get_code_template(),
        "
                    float s_NAME = s_INPUT_A;
                    vec3 p_NAME = domain_bend(p_INPUT_A, params[INDEX].x);"
    );
}

#[test]
fn templates_of_combinators_have_both_input_placeholders() {
    for family in all_families() {
        let template = family.get_code_template();
        assert!(template.contains("NAME"));
        if family.get_input_capacity() == 2 {
            assert!(template.contains("INPUT_A") && template.contains("INPUT_B"));
        } else {
            assert!(!template.contains("INPUT_B"));
        }
        if family.get_input_capacity() == 0 {
            assert!(!template.contains("INPUT_A"));
        }
    }
}

#[test]
fn which_family_connects_to_which() {
    let root = OpFamily::Domain(DomainType::Root);
    let twist = OpFamily::Domain(DomainType::Twist);
    let sphere = OpFamily::Primitive(PrimitiveType::Sphere);
    let union = OpFamily::Primitive(PrimitiveType::Union);
    let render = OpFamily::Primitive(PrimitiveType::Render);
    assert!(root.can_connect_to(twist));
    assert!(twist.can_connect_to(sphere));
    assert!(root.can_connect_to(OpFamily::Primitive(PrimitiveType::Torus)));
    assert!(!root.can_connect_to(union));
    assert!(!twist.can_connect_to(render));
    assert!(!sphere.can_connect_to(root));
    assert!(sphere.can_connect_to(union));
    assert!(union.can_connect_to(render));
}

#[test]
fn connection_types() {
    let root = OpFamily::Domain(DomainType::Root);
    let bend = OpFamily::Domain(DomainType::Bend);
    let sphere = OpFamily::Primitive(PrimitiveType::Sphere);
    let union = OpFamily::Primitive(PrimitiveType::Union);
    assert_eq!(root.get_connection_type(bend), ConnectionType::Direct);
    assert_eq!(root.get_connection_type(sphere), ConnectionType::Indirect);
    assert_eq!(bend.get_connection_type(union), ConnectionType::Indirect);
    assert_eq!(sphere.get_connection_type(root), ConnectionType::Invalid);
    assert_eq!(sphere.get_connection_type(union), ConnectionType::Direct);
}

#[test]
fn default_parameters_name_their_components() {
    assert_eq!(PARAMETER_CAPACITY, 4);
    let transform = OpFamily::Domain(DomainType::Transform).get_default_params();
    assert_eq!(
        transform.get_names(),
        &["translate_x", "translate_y", "translate_z", "scale"]
    );
    assert_eq!(transform.get_index(), 0);
    assert_eq!(
        OpFamily::Domain(DomainType::Twist).get_default_params().get_names(),
        &["twist_x", "twist_y", "", ""]
    );
    assert_eq!(
        OpFamily::Domain(DomainType::Bend).get_default_params().get_names(),
        &["bend_x", "bend_y", "", ""]
    );
    assert_eq!(
        OpFamily::Primitive(PrimitiveType::SmoothMinimum)
            .get_default_params()
            .get_names(),
        &["exponent", "", "", ""]
    );
    assert_eq!(
        OpFamily::Primitive(PrimitiveType::Sphere).get_default_params(),
        Parameters::default()
    );
    assert_eq!(
        Parameters::default().get_names(),
        &["param0", "param1", "param2", "param3"]
    );
}

#[test]
fn parameters_keep_their_slot() {
    let mut params = Parameters::new(["a", "b", "c", "d"], 3);
    assert_eq!(params.get_index(), 3);
    params.set_index(9);
    assert_eq!(params.get_index(), 9);
    assert_eq!(params.get_names(), &["a", "b", "c", "d"]);
}

#[test]
fn a_new_operator_is_named_after_its_family_and_number() {
    let op = Op::new(OpFamily::Primitive(PrimitiveType::SmoothMinimum), 12);
    assert_eq!(op.name, "smooth_minimum_12");
    assert_eq!(op.active_inputs, 0);
    assert_eq!(op.state, InteractionState::Deselected);
    assert_eq!(op.family, OpFamily::Primitive(PrimitiveType::SmoothMinimum));
    assert_eq!(op.get_params().get_index(), 0);
    assert_eq!(op.get_params().get_names(), &["exponent", "", "", ""]);
}

#[test]
fn new_operators_have_different_identifiers() {
    let a = Op::new(OpFamily::Primitive(PrimitiveType::Sphere), 0);
    let b = Op::new(OpFamily::Primitive(PrimitiveType::Sphere), 0);
    assert_ne!(a.uuid, b.uuid);
}

#[test]
fn code_of_an_operator() {
    let mut op = Op::new(OpFamily::Domain(DomainType::Transform), 4);
    op.get_params_mut().set_index(7);
    assert_eq!(
        op.get_code(Some("root_0"), None),
        "
                    float s_transform_4 = params[7].w * s_root_0;
                    vec3 t_transform_4 = params[7].xyz;
                    vec3 p_transform_4 = p_root_0 / s_transform_4 + t_transform_4;"
    );
    let union = Op::new(OpFamily::Primitive(PrimitiveType::Union), 2);
    assert_eq!(
        union.get_code(Some("sphere_0"), Some("box_1")),
        "float union_2 = op_union(sphere_0, box_1);"
    );
    assert_eq!(
        union.get_code(None, None),
        "float union_2 = op_union(INPUT_A, INPUT_B);"
    );
}

#[test]
fn an_operator_counts_its_inputs() {
    let mut op = Op::new(OpFamily::Primitive(PrimitiveType::Union), 0);
    assert!(Connected::has_inputs(&op));
    assert!(Connected::has_outputs(&op));
    assert_eq!(op.get_number_of_available_inputs(), 2);
    op.on_connect();
    assert_eq!(op.active_inputs, 1);
    assert_eq!(op.get_number_of_available_inputs(), 1);
    op.on_connect();
    assert_eq!(op.get_number_of_available_inputs(), 0);
    op.on_disconnect();
    assert_eq!(op.active_inputs, 1);
    op.update_active_inputs_count(0);
    assert_eq!(op.active_inputs, 0);
    let render = Op::new(OpFamily::Primitive(PrimitiveType::Render), 1);
    assert!(!Connected::has_outputs(&render));
    let root = Op::new(OpFamily::Domain(DomainType::Root), 2);
    assert!(!Connected::has_inputs(&root));
}
