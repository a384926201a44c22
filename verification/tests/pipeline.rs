use menu_typeset::decode::DecodePolicy;
use menu_typeset::helpers::HelperKind;
use menu_typeset::menu::MenuItem;
use menu_typeset::pipeline::{advance, Action, Config, ErrorKind, Event, Failure, Stage, Step};

fn dish(name: &str, category: &str) -> MenuItem {
    MenuItem {
        name_pl: name.to_string(),
        name_en: None,
        description_pl: None,
        description_en: None,
        category: category.to_string(),
        price: None,
    }
}

fn strict() -> Config {
    Config {
        template_path: "layout.hbs".to_string(),
        helpers: vec![HelperKind::FormatPrice],
        policy: DecodePolicy::Strict,
    }
}

fn failed(failure: Failure) -> Step {
    Step { stage: Stage::Failed, action: Action::Abort { failure } }
}

fn every_event() -> Vec<Event> {
    vec![
        Event::Started { args: vec!["menu.csv".to_string()] },
        Event::Started { args: Vec::new() },
        Event::TemplateLoaded,
        Event::TemplateFailed { reason: "no such file".to_string() },
        Event::InputRead { rows: vec![Ok(dish("Pierogi", "Main")), Err("bad".to_string())] },
        Event::InputFailed { reason: "no such file".to_string() },
        Event::Rendered { document: "text".to_string() },
        Event::RenderFailed { reason: "no such helper".to_string() },
    ]
}

#[test]
fn the_default_setup_is_permissive_and_uses_the_layout_template() {
    let config = Config::default();
    assert_eq!(config.template_path, "./templates/layout.tex.hbs");
    assert_eq!(
        config.helpers,
        vec![HelperKind::Trim, HelperKind::Escape, HelperKind::FormatPrice]
    );
    assert_eq!(config.policy, DecodePolicy::Permissive);
}

#[test]
fn a_run_starts_by_loading_the_template() {
    let step = advance(
        &strict(),
        Stage::Init,
        Event::Started { args: vec!["menu.csv".to_string(), "more".to_string()] },
    );
    assert_eq!(step.stage, Stage::LoadingTemplate { input: "menu.csv".to_string() });
    assert_eq!(step.action, Action::LoadTemplate { path: "layout.hbs".to_string() });
}

#[test]
fn a_run_without_the_input_path_fails_at_once() {
    let step = advance(&strict(), Stage::Init, Event::Started { args: Vec::new() });
    assert_eq!(step, failed(Failure::MissingArgument));
}

#[test]
fn the_input_is_read_once_the_template_is_loaded() {
    let step = advance(
        &strict(),
        Stage::LoadingTemplate { input: "menu.csv".to_string() },
        Event::TemplateLoaded,
    );
    assert_eq!(step.stage, Stage::ReadingInput);
    assert_eq!(step.action, Action::ReadInput { path: "menu.csv".to_string() });
}

#[test]
fn a_template_that_cannot_be_loaded_ends_the_run() {
    let step = advance(
        &strict(),
        Stage::LoadingTemplate { input: "menu.csv".to_string() },
        Event::TemplateFailed { reason: "no such file".to_string() },
    );
    assert_eq!(step, failed(Failure::TemplateLoad { reason: "no such file".to_string() }));
}

#[test]
fn an_input_that_cannot_be_read_ends_the_run() {
    let step = advance(
        &strict(),
        Stage::ReadingInput,
        Event::InputFailed { reason: "permission denied".to_string() },
    );
    assert_eq!(step, failed(Failure::InputUnreadable { reason: "permission denied".to_string() }));
}

#[test]
fn the_rows_are_grouped_for_rendering() {
    let rows = vec![
        Ok(dish("Pierogi", "Main")),
        Ok(dish("Barszcz", "Soup")),
        Ok(dish("Bigos", "Main")),
    ];
    let step = advance(&strict(), Stage::ReadingInput, Event::InputRead { rows });
    assert_eq!(step.stage, Stage::Rendering);
    match step.action {
        Action::Render { groups } => {
            assert_eq!(groups.len(), 2);
            assert_eq!(groups[0].name(), "Main");
            assert_eq!(groups[0].items(), &vec![dish("Pierogi", "Main"), dish("Bigos", "Main")]);
            assert_eq!(groups[1].name(), "Soup");
            assert_eq!(groups[1].items(), &vec![dish("Barszcz", "Soup")]);
        }
        other => panic!("{:?}", other),
    }
}

#[test]
fn a_strict_run_ends_with_the_first_row_that_failed() {
    let rows = vec![Ok(dish("Pierogi", "Main")), Err("bad price".to_string())];
    let step = advance(&strict(), Stage::ReadingInput, Event::InputRead { rows });
    assert_eq!(step, failed(Failure::Decode { row: 2, reason: "bad price".to_string() }));
}

#[test]
fn a_permissive_run_goes_on_without_the_rows_that_failed() {
    let rows = vec![Err("bad price".to_string()), Ok(dish("Pierogi", "Main"))];
    let step = advance(&Config::default(), Stage::ReadingInput, Event::InputRead { rows });
    assert_eq!(step.stage, Stage::Rendering);
    match step.action {
        Action::Render { groups } => {
            assert_eq!(groups.len(), 1);
            assert_eq!(groups[0].items(), &vec![dish("Pierogi", "Main")]);
        }
        other => panic!("{:?}", other),
    }
}

#[test]
fn the_rendered_document_is_written_out() {
    let step =
        advance(&strict(), Stage::Rendering, Event::Rendered { document: "menu".to_string() });
    assert_eq!(
        step,
        Step { stage: Stage::Done, action: Action::Emit { document: "menu".to_string() } }
    );
}

#[test]
fn a_document_that_cannot_be_rendered_ends_the_run() {
    let step = advance(
        &strict(),
        Stage::Rendering,
        Event::RenderFailed { reason: "no such helper".to_string() },
    );
    assert_eq!(step, failed(Failure::Render { reason: "no such helper".to_string() }));
}

#[test]
fn a_run_that_has_ended_takes_no_further_step() {
    for event in every_event() {
        let step = advance(&strict(), Stage::Done, event.clone());
        assert_eq!(step, Step { stage: Stage::Done, action: Action::Ignore });
        let step = advance(&strict(), Stage::Failed, event);
        assert_eq!(step, Step { stage: Stage::Failed, action: Action::Ignore });
    }
}

#[test]
fn an_event_that_the_stage_does_not_wait_for_changes_nothing() {
    let loading = Stage::LoadingTemplate { input: "menu.csv".to_string() };
    let waits_for = |stage: &Stage, event: &Event| match (stage, event) {
        (Stage::Init, Event::Started { .. }) => true,
        (Stage::LoadingTemplate { .. }, Event::TemplateLoaded) => true,
        (Stage::LoadingTemplate { .. }, Event::TemplateFailed { .. }) => true,
        (Stage::ReadingInput, Event::InputRead { .. }) => true,
        (Stage::ReadingInput, Event::InputFailed { .. }) => true,
        (Stage::Rendering, Event::Rendered { .. }) => true,
        (Stage::Rendering, Event::RenderFailed { .. }) => true,
        _ => false,
    };
    for stage in [Stage::Init, loading, Stage::ReadingInput, Stage::Rendering] {
        for event in every_event() {
            let step = advance(&strict(), stage.clone(), event.clone());
            if waits_for(&stage, &event) {
                assert_ne!(step.action, Action::Ignore);
            } else {
                assert_eq!(step, Step { stage: stage.clone(), action: Action::Ignore });
            }
        }
    }
}

#[test]
fn the_input_is_asked_for_only_after_the_template() {
    let loading = Stage::LoadingTemplate { input: "menu.csv".to_string() };
    for stage in
        [Stage::Init, loading, Stage::ReadingInput, Stage::Rendering, Stage::Done, Stage::Failed]
    {
        for event in every_event() {
            let step = advance(&strict(), stage.clone(), event.clone());
            if let Action::ReadInput { .. } = step.action {
                assert!(matches!(stage, Stage::LoadingTemplate { .. }));
                assert_eq!(event, Event::TemplateLoaded);
            }
        }
    }
}

#[test]
fn success_exits_with_zero_and_failure_with_another_code() {
    assert_eq!(Action::Emit { document: "menu".to_string() }.exit_code(), Some(0));
    assert_eq!(Action::Abort { failure: Failure::MissingArgument }.exit_code(), Some(1));
    assert_eq!(Action::LoadTemplate { path: "layout.hbs".to_string() }.exit_code(), None);
    assert_eq!(Action::ReadInput { path: "menu.csv".to_string() }.exit_code(), None);
    assert_eq!(Action::Render { groups: Vec::new() }.exit_code(), None);
    assert_eq!(Action::Ignore.exit_code(), None);
}

#[test]
fn each_failure_has_its_kind() {
    let reason = "why".to_string();
    assert_eq!(Failure::MissingArgument.kind(), ErrorKind::Configuration);
    assert_eq!(Failure::TemplateLoad { reason: reason.clone() }.kind(), ErrorKind::Io);
    assert_eq!(Failure::InputUnreadable { reason: reason.clone() }.kind(), ErrorKind::Io);
    assert_eq!(Failure::Decode { row: 1, reason: reason.clone() }.kind(), ErrorKind::Decode);
    assert_eq!(Failure::Render { reason }.kind(), ErrorKind::Render);
}

#[test]
fn the_diagnostic_names_the_stage_and_the_reason() {
    assert_eq!(
        Failure::MissingArgument.diagnostic(),
        "starting: the path of the input file is missing"
    );
    assert_eq!(
        Failure::TemplateLoad { reason: "no such file".to_string() }.diagnostic(),
        "loading the template: no such file"
    );
    assert_eq!(
        Failure::InputUnreadable { reason: "permission denied".to_string() }.diagnostic(),
        "reading the input: permission denied"
    );
    assert_eq!(
        Failure::Decode { row: 120, reason: "invalid float literal".to_string() }.diagnostic(),
        "reading the input: row 120: invalid float literal"
    );
    assert_eq!(
        Failure::Decode { row: 0, reason: String::new() }.diagnostic(),
        "reading the input: row 0: "
    );
    assert_eq!(
        Failure::Decode { row: usize::MAX, reason: "x".to_string() }.diagnostic(),
        format!("reading the input: row {}: x", usize::MAX)
    );
    assert_eq!(
        Failure::Render { reason: "no such helper".to_string() }.diagnostic(),
        "rendering: no such helper"
    );
}
