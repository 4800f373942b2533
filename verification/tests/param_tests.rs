use fdm::param::{
    from_parameter_bytes, from_parameter_text, parameter_file_path, usize_list, ModelPara,
    ParamError,
};

fn sample_text() -> String {
    let values = [
        "10,100",
        "0.0002,5001,20,0.05",
        "1,1,1",
        "2",
        "mvp.grd",
        "mvs.grd",
        "mvp.grd",
        "wavelet.bln",
        "m-point-x2.cdp",
        "m-point-z2.cdp",
        "m-point-X.dat",
        "m-point-Z.dat",
        "1,21",
    ];
    let mut s = String::new();
    for v in values {
        s.push_str("!comment\r\n");
        s.push_str(v);
        s.push_str("\r\n");
    }
    s
}

#[test]
fn default_parameters() {
    let m = ModelPara::new_with_default("m");
    assert_eq!(*m.diff_order(), 10);
    assert_eq!(*m.pml_h(), 100);
    assert_eq!(m.dt(), "0.0002");
    assert_eq!(*m.points(), 5001);
    assert_eq!(m.fm(), "20");
    assert_eq!(m.delay(), "0.05");
    assert_eq!(*m.source_type(), 2);
    assert_eq!(m.vp_grd(), "mvp.grd");
    assert_eq!(m.vs_grd(), "mvs.grd");
    assert_eq!(m.pp_grd(), "mvp.grd");
    assert_eq!(m.wavelet_bln(), "wavelet.bln");
    assert_eq!(m.cdp_x2(), "m-point-x2.cdp");
    assert_eq!(m.cdp_z2(), "m-point-z2.cdp");
    assert_eq!(m.wave_field_x(), "m-point-X.dat");
    assert_eq!(m.wave_field_z(), "m-point-Z.dat");
    assert_eq!((*m.self_start(), *m.self_end()), (1, 21));
}

#[test]
fn value_lines_of_the_defaults() {
    let m = ModelPara::new_with_default("m");
    assert_eq!(
        m.to_str_vec(),
        vec![
            "10,100",
            "0.0002,5001,20,0.05",
            "1,1,1",
            "2",
            "mvp.grd",
            "mvs.grd",
            "mvp.grd",
            "wavelet.bln",
            "m-point-x2.cdp",
            "m-point-z2.cdp",
            "m-point-X.dat",
            "m-point-Z.dat",
            "1,21"
        ]
    );
}

#[test]
fn parameter_file_text_interleaves_comments_and_values() {
    let m = ModelPara::new_with_default("m");
    let text = m.parameter_file_text();
    let lines: Vec<&str> = text.split("\r\n").collect();
    assert_eq!(lines.len(), 27);
    assert_eq!(lines[0], "!差分阶数，吸收边界厚度");
    assert_eq!(lines[1], "10,100");
    assert_eq!(lines[24], "!自激自收区域的起点、终点位置");
    assert_eq!(lines[25], "1,21");
    assert_eq!(lines[26], "");
}

#[test]
fn written_parameters_read_back() {
    let m = ModelPara::new_with_default("model");
    let p = from_parameter_text(&m.parameter_file_text()).unwrap();
    assert_eq!((p.diff_order, p.pml_h), (10, 100));
    assert_eq!(p.timing, vec!["0.0002", "5001", "20", "0.05"]);
    assert_eq!((p.source_x, p.source_z, p.receiver_z, p.source_type), (1, 1, 1, 2));
    assert_eq!(p.vp_grd, "modelvp.grd");
    assert_eq!(p.wave_field_z, "model-point-Z.dat");
    assert_eq!((p.self_start, p.self_end), (1, 21));
}

#[test]
fn parameter_text_is_read_by_line_position() {
    let p = from_parameter_bytes(sample_text().into_bytes()).unwrap();
    assert_eq!(p.diff_order, 10);
    assert_eq!(p.cdp_x2, "m-point-x2.cdp");
    assert_eq!(p.timing.len(), 4);
}

#[test]
fn parameter_errors() {
    let text = sample_text();
    assert_eq!(from_parameter_text("a\nb\n").err(), Some(ParamError::MissingLine));
    let bad = text.replacen("10,100", "10,x", 1);
    assert_eq!(from_parameter_text(&bad).err(), Some(ParamError::BadInteger));
    let few = text.replacen("10,100", "10", 1);
    assert_eq!(from_parameter_text(&few).err(), Some(ParamError::MissingField));
    let timing = text.replacen("0.0002,5001,20,0.05", "0.0002,5001,20", 1);
    assert_eq!(from_parameter_text(&timing).err(), Some(ParamError::MissingField));
    let real = text.replacen("0.0002,5001,20,0.05", "0.0002,5001,x,0.05", 1);
    assert_eq!(from_parameter_text(&real).err(), Some(ParamError::BadReal));
    let extra = text.replacen("0.0002,5001,20,0.05", "0.0002,5001,20,0.05,", 1);
    assert_eq!(from_parameter_text(&extra).err(), Some(ParamError::BadReal));
    let spaced = text.replacen("1,21", "1, 21", 1);
    assert_eq!(from_parameter_text(&spaced).err(), Some(ParamError::BadInteger));
    let mut bytes = text.into_bytes();
    bytes[3] = 0xff;
    assert_eq!(from_parameter_bytes(bytes).err(), Some(ParamError::InvalidUtf8));
}

#[test]
fn usize_list_parses_every_value() {
    let cv = |s: &str| s.chars().collect::<Vec<char>>();
    assert_eq!(usize_list(&cv("1,2,3")), Some(vec![1, 2, 3]));
    assert_eq!(usize_list(&cv("1,,3")), None);
    assert_eq!(usize_list(&cv("7")), Some(vec![7]));
}

#[test]
fn parameter_file_path_in_directory() {
    assert_eq!(parameter_file_path("models"), "models\\PARAMETER.txt");
}

#[test]
fn unusual_values_read_back() {
    let mut m = ModelPara::new_with_default("x");
    m.dt = "1e-5".to_string();
    m.fm = "25.5".to_string();
    m.delay = "NaN".to_string();
    m.points = 0;
    m.source_type = 3;
    m.vp_grd = "dir with space, and comma\\vp.grd".to_string();
    m.cdp_z2 = "ends with cr\r".to_string();
    m.wave_field_x = "".to_string();
    m.self_end = usize::MAX;
    let bytes = m.parameter_file_text().into_bytes();
    let p = from_parameter_bytes(bytes).unwrap();
    assert_eq!(p.timing, vec!["1e-5", "0", "25.5", "NaN"]);
    assert_eq!(p.source_type, 3);
    assert_eq!(p.vp_grd, m.vp_grd);
    assert_eq!(p.cdp_z2, m.cdp_z2);
    assert_eq!(p.wave_field_x, "");
    assert_eq!(p.self_end, usize::MAX);
}
