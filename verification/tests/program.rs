use dxf_trutops_cleaner::cli::{output_for_input, parse_cli, run_failed, CliCommand};
use dxf_trutops_cleaner::convert::{
    check_contours, failure_line, loading_line, spline_sample_count, timestamped_file_name,
    timestamped_name, ConvertResult,
};
use dxf_trutops_cleaner::gui::{components, App};
use dxf_trutops_cleaner::icon::load_icon;
use dxf_trutops_cleaner::svg_read::SvgStats;

fn args(list: &[&str]) -> Vec<String> {
    list.iter().map(|s| s.to_string()).collect()
}

#[test]
fn cli_without_arguments_opens_window() {
    assert!(matches!(parse_cli(&Vec::new()), Ok(CliCommand::Gui)));
}

#[test]
fn cli_reads_options_and_inputs() {
    match parse_cli(&args(&["a.dxf", "-t", "0.05", "--tolerance", "0.2", "-o", "out.dxf"])) {
        Ok(CliCommand::Convert(c)) => {
            assert_eq!(c.tolerance, Some("0.2".to_string()));
            assert_eq!(c.output, Some("out.dxf".to_string()));
            assert_eq!(c.inputs, args(&["a.dxf"]));
        }
        _ => panic!("expected a conversion"),
    }
    match parse_cli(&args(&["a.dxf", "b.svg"])) {
        Ok(CliCommand::Convert(c)) => {
            assert_eq!(c.tolerance, None);
            assert_eq!(c.output, None);
            assert_eq!(c.inputs, args(&["a.dxf", "b.svg"]));
        }
        _ => panic!("expected a conversion"),
    }
}

fn cli_error(list: &[&str]) -> String {
    match parse_cli(&args(list)) {
        Err(e) => e,
        _ => panic!("expected an error"),
    }
}

#[test]
fn cli_errors() {
    assert_eq!(cli_error(&["a.dxf", "-t"]), "Brak wartosci dla -t");
    assert_eq!(cli_error(&["--output"]), "Brak sciezki dla -o");
    assert_eq!(cli_error(&["-x", "a.dxf"]), "Nieznana opcja: -x");
    assert_eq!(cli_error(&["-"]), "Nieznana opcja: -");
    assert_eq!(
        cli_error(&["-t", "0.1"]),
        "Podaj plik DXF/SVG lub uruchom bez argumentow (GUI)."
    );
    assert_eq!(cli_error(&["-o", "x.dxf", "a", "b"]), "-o tylko dla jednego pliku.");
}

fn result(splines: usize) -> ConvertResult {
    ConvertResult {
        output: "/tmp/p_1.dxf".to_string(),
        before: 136000,
        after: 1600,
        contours: 12,
        splines,
        arc_segments: 40,
        source: "DXF".to_string(),
    }
}

#[test]
fn reports_of_a_conversion() {
    assert_eq!(
        result(3).gui_report(),
        args(&[
            "OK: 136000 -> 1600 | kontury: 12",
            "DXF krzywych/sciazek: 3 -> lukow: 40",
            "Zapisano: /tmp/p_1.dxf"
        ])
    );
    assert_eq!(
        result(0).gui_report(),
        args(&["OK: 136000 -> 1600 | kontury: 12", "Zapisano: /tmp/p_1.dxf"])
    );
    assert_eq!(
        result(2).cli_report("0.1"),
        args(&[
            "Wierzcholki: 136000 -> 1600 (tolerancja 0.1)",
            "Kontury: 12",
            "DXF: 2 krzywych/sciazek -> lukow: 40",
            "Zrodlo: DXF",
            "Zapisano DXF: /tmp/p_1.dxf"
        ])
    );
    assert_eq!(result(0).cli_report("0.05").len(), 4);
}

#[test]
fn log_lines_and_file_name() {
    assert_eq!(loading_line("a.dxf"), "Wczytywanie: a.dxf");
    assert_eq!(failure_line("a.dxf", "zle"), "BLAD: a.dxf | zle");
    assert_eq!(
        timestamped_name(Some("panel_nr10"), "20260527_115224"),
        "panel_nr10_20260527_115224.dxf"
    );
    assert_eq!(timestamped_name(None, "x"), "out_x.dxf");
}

#[test]
fn spline_samples() {
    assert_eq!(spline_sample_count(0), 32);
    assert_eq!(spline_sample_count(2), 32);
    assert_eq!(spline_sample_count(3), 36);
    assert_eq!(spline_sample_count(usize::MAX), usize::MAX);
}

#[test]
fn window_state_defaults_and_log() {
    let mut app = App::default();
    assert!(app.files.is_empty() && app.log.is_empty() && !app.busy);
    app.append_log("a");
    app.append_log("b");
    assert_eq!(app.log, "a\nb\n");
}

#[test]
fn picked_files_are_added_once() {
    let mut app = App::default();
    app.pick_files(Some(args(&["a", "b", "a"])));
    app.pick_files(None);
    app.pick_files(Some(args(&["b", "c"])));
    assert_eq!(app.files, args(&["a", "b", "c"]));
}

#[test]
fn conversion_start_and_polling() {
    let mut app = App::default();
    assert!(app.start_convert("0.1").is_none());
    app.pick_files(Some(args(&["x.dxf", "y.dxf"])));
    let files = app.start_convert("0.1").unwrap();
    assert_eq!(files, args(&["x.dxf", "y.dxf"]));
    assert!(app.busy);
    assert_eq!(app.log, "---- Start: 2 plik(ow), tol=0.1 ----\n");
    assert!(app.start_convert("0.1").is_none());

    let o = app.poll_worker(args(&["one"]), false);
    assert!(!o.done && o.repaint && app.busy);
    let o = app.poll_worker(args(&["two", "__DONE__", "late"]), false);
    assert!(o.done && !o.repaint && !app.busy);
    assert_eq!(
        app.log,
        "---- Start: 2 plik(ow), tol=0.1 ----\none\ntwo\nGotowe.\n"
    );
}

#[test]
fn polling_a_closed_channel_finishes() {
    let mut app = App::default();
    app.pick_files(Some(args(&["x.dxf"])));
    app.start_convert("0.1");
    let o = app.poll_worker(args(&["m"]), true);
    assert!(o.done && !app.busy);
    assert!(app.log.ends_with("m\nGotowe.\n"));
    let idle = app.poll_worker(Vec::new(), false);
    assert!(!idle.done && !idle.repaint);
}

#[test]
fn svg_counts_add_up() {
    let mut s = SvgStats::default();
    s.add_contour(4, 2, 1);
    s.add_contour(6, 3, 0);
    assert_eq!((s.path_count, s.before, s.after, s.arc_segments), (2, 10, 5, 1));
}

#[test]
fn icon_decoding() {
    assert!(load_icon(b"not an image").is_none());
    let mut bmp = Vec::new();
    image::RgbaImage::from_raw(1, 1, vec![9, 9, 9, 255])
        .unwrap()
        .write_to(&mut std::io::Cursor::new(&mut bmp), image::ImageFormat::Bmp)
        .unwrap_or(());
    assert!(load_icon(&bmp).is_none());
    let img = image::RgbaImage::from_raw(2, 1, vec![1, 2, 3, 4, 5, 6, 7, 8]).unwrap();
    let mut png = Vec::new();
    img.write_to(&mut std::io::Cursor::new(&mut png), image::ImageFormat::Png)
        .unwrap();
    let px = load_icon(&png).unwrap();
    assert_eq!((px.width, px.height), (2, 1));
    assert_eq!(px.rgba, vec![1, 2, 3, 4, 5, 6, 7, 8]);
}

#[test]
fn timestamped_file_name_shape() {
    let name = timestamped_file_name(Some("panel"));
    assert!(name.starts_with("panel_"));
    assert!(name.ends_with(".dxf"));
    let stamp = &name["panel_".len()..name.len() - ".dxf".len()];
    let chars: Vec<char> = stamp.chars().collect();
    assert!(chars.len() >= 15);
    let n = chars.len();
    for (i, c) in chars.iter().enumerate().skip(n - 15) {
        if i == n - 7 {
            assert_eq!(*c, '_');
        } else {
            assert!(c.is_ascii_digit());
        }
    }
    assert!(timestamped_file_name(None).starts_with("out_"));
}

#[test]
fn empty_conversion_is_an_error() {
    assert_eq!(
        check_contours(0),
        Err("Brak geometrii LINE/POLYLINE/LWPOLYLINE/SPLINE.".to_string())
    );
    assert_eq!(check_contours(3), Ok(()));
}

#[test]
fn output_only_for_first_input() {
    let o = Some("out.dxf".to_string());
    assert_eq!(output_for_input(0, &o), o);
    assert_eq!(output_for_input(1, &o), None);
    assert_eq!(output_for_input(0, &None), None);
    assert!(run_failed(1));
    assert!(!run_failed(0));
}

#[test]
fn path_components_normalize() {
    let c = |s: &str| -> Vec<String> {
        components(s).into_iter().map(|v| v.into_iter().collect()).collect()
    };
    assert_eq!(c("a//b/"), vec!["a", "b"]);
    assert_eq!(c("a/./b/."), vec!["a", "b"]);
    assert_eq!(c("./a"), vec![".", "a"]);
    assert_eq!(c("/x/../y"), vec!["/", "x", "..", "y"]);
    assert_eq!(c("."), vec!["."]);
    assert!(c("").is_empty());
    for p in ["a//b/", "a/./b/.", "./a", "/x/../y", ".", "", "/", "a"] {
        let expected: Vec<String> = std::path::Path::new(p)
            .components()
            .map(|k| k.as_os_str().to_string_lossy().into_owned())
            .collect();
        assert_eq!(c(p), expected, "{p}");
    }
}

#[test]
fn picked_paths_compare_as_paths() {
    let mut app = App::default();
    app.pick_files(Some(args(&["/d/a.dxf", "/d//a.dxf", "/d/./a.dxf", "./b.dxf", "b.dxf"])));
    assert_eq!(app.files, args(&["/d/a.dxf", "./b.dxf", "b.dxf"]));
}
