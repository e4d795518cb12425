use rust_shader_viewer::resources::get_path_for_file;

#[test]
fn path_components_are_out_dir_res_and_file_name() {
    let parts = get_path_for_file("/tmp/out", "cube.obj");
    assert_eq!(parts, vec!["/tmp/out".to_string(), "res".to_string(), "cube.obj".to_string()]);
}
