use sdf_graph::shader_string::ShaderString;

#[test]
fn test_formatting() {
    let unformatted = "
        float s_NAME = transforms[INDEX].w;
        vec3 t_NAME = transforms[INDEX].xyz;
        float NAME = sdf_sphere(p / s_NAME + t_NAME, vec3(0.0), 1.0) * s_NAME;
        "
        .to_string();

    let actual = "
        float s_sphere = transforms[0].w;
        vec3 t_sphere = transforms[0].xyz;
        float sphere = sdf_sphere(p / s_sphere + t_sphere, vec3(0.0), 1.0) * s_sphere;
        "
        .to_string();

    let formatted = ShaderString::new(unformatted, "sphere", Some(0), None, None).code;
    assert_eq!(formatted, actual);
}

#[test]
fn placeholders_without_a_value_stay() {
    let code = "float NAME = op(INPUT_A, INPUT_B, params[INDEX]);".to_string();
    let shader = ShaderString::new(code, "union_3", None, Some("sphere_0"), None);
    assert_eq!(
        shader.to_string(),
        "float union_3 = op(sphere_0, INPUT_B, params[INDEX]);"
    );
}

#[test]
fn all_placeholders_are_filled_in() {
    let code = "float NAME = op(INPUT_A, INPUT_B, params[INDEX]);".to_string();
    let shader = ShaderString::new(code, "union_3", Some(17), Some("sphere_0"), Some("box_1"));
    assert_eq!(
        shader.to_string(),
        "float union_3 = op(sphere_0, box_1, params[17]);"
    );
}

#[test]
fn the_name_is_filled_in_before_the_index() {
    // A name that holds the token of the index is itself searched when the
    // index is filled in.
    let shader = ShaderString::new("NAME".to_string(), "INDEX", Some(5), None, None);
    assert_eq!(shader.code, "5");
}
