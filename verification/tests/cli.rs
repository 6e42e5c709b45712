use etch::cli::{check_export_output, check_simulation_steps, display_filename, extension_check, slug, test_report, validate_output_extension, ExportFormat};

#[test]
fn preserves_displays_with_colliding_filenames() {
    let mut taken: Vec<String> = Vec::new();
    let first = display_filename(&slug("a b"), &taken);
    taken.push(first.clone());
    let second = display_filename(&slug("A B"), &taken);
    assert_eq!(first, "a-b.svg");
    assert_eq!(second, "a-b-2.svg");
}

#[test]
fn slugs_keep_lower_case_letters_and_digits() {
    assert_eq!(slug("RC transient response"), "rc-transient-response");
    assert_eq!(slug("--Vout (1)--"), "vout--1");
    assert_eq!(slug("µ!"), "display");
    assert_eq!(slug(""), "display");
}

#[test]
fn numbered_filenames_skip_taken_ones() {
    let taken = vec!["x.svg".to_string(), "x-2.svg".to_string(), "x-4.svg".to_string()];
    assert_eq!(display_filename("x", &taken), "x-3.svg");
    assert_eq!(display_filename("y", &taken), "y.svg");
}

#[test]
fn export_outputs_need_the_format_extension() {
    assert_eq!(check_export_output(false, ExportFormat::Kicad, "out/board.kicad_sch"), Ok(()));
    assert_eq!(
        check_export_output(false, ExportFormat::Kicad, "board.sch"),
        Err("KiCad schematic output path must end in .kicad_sch: board.sch".to_string())
    );
    assert_eq!(
        check_export_output(true, ExportFormat::Kicad, "board.kicad_sch"),
        Err("KiCad PCB output path must end in .kicad_pcb: board.kicad_sch".to_string())
    );
    assert_eq!(check_export_output(true, ExportFormat::Svg, "pcb.svg"), Ok(()));
    assert_eq!(
        check_export_output(false, ExportFormat::Svg, ".svg"),
        Err("SVG schematic output path must end in .svg: .svg".to_string())
    );
    assert_eq!(validate_output_extension("a/b.tar.svg", "svg", "SVG"), Ok(()));
    assert_eq!(extension_check(None, "svg", "SVG", "x"), Err("SVG output path must end in .svg: x".to_string()));
}

#[test]
fn test_reports_count_passes_and_failures() {
    let results = vec![
        ("source reaches its requested voltage".to_string(), None),
        ("deliberate failure".to_string(), Some("failure messages are reported".to_string())),
    ];
    assert_eq!(
        test_report(&results),
        Err(vec![
            "PASS source reaches its requested voltage".to_string(),
            "FAIL deliberate failure: failure messages are reported".to_string(),
            "1 passed; 1 failed".to_string(),
        ])
    );
    assert_eq!(
        test_report(&vec![("a".to_string(), None)]),
        Ok(vec!["PASS a".to_string(), "1 passed; 0 failed".to_string()])
    );
    assert_eq!(test_report(&vec![]), Ok(vec!["0 passed; 0 failed".to_string()]));
}

#[test]
fn a_simulation_needs_at_least_one_step() {
    assert_eq!(
        check_simulation_steps(0),
        Err("simulation steps must be greater than zero".to_string())
    );
    assert_eq!(check_simulation_steps(1), Ok(()));
    assert_eq!(check_simulation_steps(usize::MAX), Ok(()));
}
