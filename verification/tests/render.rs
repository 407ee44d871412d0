use coco_console::graph::GraphMode;
use coco_console::ordered::TextMap;
use coco_console::render::app_nav_class;
use coco_console::render::format_script_size;
use coco_console::render::graph_page;
use coco_console::render::mode_switch_class;
use coco_console::render::script_language;
use coco_console::render::select_skill;
use coco_console::render::skill_detail;
use coco_console::render::skill_href;
use coco_console::render::skill_instructions;
use coco_console::render::skill_role_href;
use coco_console::render::skills_page;
use coco_console::render::Instructions;
use coco_console::render::SessionRole;
use coco_console::render::SkillGroups;
use coco_console::render::SkillRecord;
use coco_console::render::SkillScript;
use coco_console::render::SkillVersion;

fn deploy_skill() -> SkillRecord {
    SkillRecord {
        name: "deploy & verify".to_owned(),
        current_version: 2,
        versions: vec![
            SkillVersion {
                version: 1,
                id: "first".to_owned(),
                created_at: "2026-08-06T09:00:00Z".to_owned(),
                description: "Initial revision".to_owned(),
                body: "# Initial\n\nRun the old workflow.".to_owned(),
                scripts: vec![SkillScript {
                    path: "scripts/old.py".to_owned(),
                    content: "print('<unsafe>')\n".to_owned(),
                }],
                enable_coco_shim: false,
            },
            SkillVersion {
                version: 2,
                id: "second".to_owned(),
                created_at: "2026-08-06T09:05:00Z".to_owned(),
                description: "Current revision".to_owned(),
                body: "# Current\n\nRun the new workflow.".to_owned(),
                scripts: vec![SkillScript {
                    path: "scripts/new.sh".to_owned(),
                    content: "#!/bin/sh\necho ready\n".to_owned(),
                }],
                enable_coco_shim: true,
            },
        ],
    }
}

fn groups() -> SkillGroups {
    let mut orchestrator = TextMap::new();
    let skill = deploy_skill();
    orchestrator.insert(skill.name.clone(), skill);
    SkillGroups {
        orchestrator,
        runner: TextMap::new(),
    }
}

#[test]
fn skills_page_shows_the_requested_version() {
    let page = skills_page(
        &groups(),
        SessionRole::Orchestrator,
        Some("deploy & verify"),
        Some(1),
    );
    assert_eq!(page.stats, "1 skills");
    assert_eq!(page.selected_name.as_deref(), Some("deploy & verify"));
    assert_eq!(page.orchestrator_link.class, "skill-role-item active");
    assert_eq!(page.orchestrator_link.count, 1);
    assert_eq!(page.runner_link.class, "skill-role-item");
    assert_eq!(page.runner_link.label, "Runner");
    assert_eq!(page.runner_link.href, "/skills?role=runner");
    assert_eq!(page.runner_link.count, 0);
    assert_eq!(page.catalog.len(), 1);
    assert_eq!(page.catalog[0].class, "skill-list-item active");
    assert_eq!(page.catalog[0].version, "v2");
    assert_eq!(page.catalog[0].summary, "Current revision");
    assert!(page.catalog[0].href.contains("name=deploy+%26+verify"));
    assert!(page.catalog[0].href.contains("version=2"));

    let detail = page.detail.unwrap();
    assert_eq!(detail.place, 0);
    assert!(!detail.is_current);
    assert_eq!(detail.badge, "v1");
    assert_eq!(detail.shim, "Disabled");
    assert_eq!(detail.script_count, "1");
    assert_eq!(detail.scripts[0].path, "scripts/old.py");
    assert_eq!(detail.scripts[0].language.as_deref(), Some("py"));
    assert_eq!(detail.scripts[0].size, "18 B");
    assert!(detail.scripts[0].open);
    assert_eq!(detail.versions[0].label, "v2");
    assert!(detail.versions[0].current);
    assert_eq!(detail.versions[0].class, "skill-version-item");
    assert_eq!(detail.versions[1].label, "v1");
    assert_eq!(detail.versions[1].class, "skill-version-item active");
    assert!(detail.versions[1].href.contains("version=1"));
}

#[test]
fn skills_page_falls_back_to_the_current_version() {
    let page = skills_page(
        &groups(),
        SessionRole::Orchestrator,
        Some("deploy & verify"),
        Some(99),
    );
    let detail = page.detail.unwrap();
    assert_eq!(detail.badge, "v2 · current");
    assert!(detail.is_current);
    assert_eq!(detail.shim, "Enabled");
    assert_eq!(detail.scripts[0].path, "scripts/new.sh");
}

#[test]
fn role_without_skills_shows_none() {
    let page = skills_page(&groups(), SessionRole::Runner, Some("deploy & verify"), None);
    assert_eq!(page.selected_name, None);
    assert_eq!(page.detail, None);
    assert!(page.catalog.is_empty());
}

#[test]
fn unknown_skill_falls_back_to_the_first() {
    let all = groups();
    assert_eq!(
        select_skill(&all.orchestrator, Some("missing")).as_deref(),
        Some("deploy & verify")
    );
    assert_eq!(
        select_skill(&all.orchestrator, None).as_deref(),
        Some("deploy & verify")
    );
}

#[test]
fn missing_current_version_shows_nothing() {
    let mut skill = deploy_skill();
    skill.current_version = 7;
    assert_eq!(
        skill_detail(SessionRole::Orchestrator, &skill, Some(5)),
        None
    );
    assert!(skill_detail(SessionRole::Orchestrator, &skill, Some(2)).is_some());
}

#[test]
fn skill_links_are_encoded() {
    assert_eq!(
        skill_href(SessionRole::Orchestrator, "deploy & verify", Some(2)),
        "/skills?role=orchestrator&name=deploy+%26+verify&version=2"
    );
    assert_eq!(
        skill_href(SessionRole::Runner, "größe=1", None),
        "/skills?role=runner&name=gr%C3%B6%C3%9Fe%3D1"
    );
    assert_eq!(skill_role_href(SessionRole::Runner), "/skills?role=runner");
}

#[test]
fn script_language_is_the_last_extension() {
    assert_eq!(script_language("scripts/new.sh").as_deref(), Some("sh"));
    assert_eq!(script_language("a.tar.gz").as_deref(), Some("gz"));
    assert_eq!(script_language("trailing.").as_deref(), Some(""));
    assert_eq!(script_language("Makefile"), None);
}

#[test]
fn script_sizes_are_rounded_to_tenths() {
    assert_eq!(format_script_size(0), "0 B");
    assert_eq!(format_script_size(1023), "1023 B");
    for bytes in [
        1024, 1075, 1076, 1126, 1177, 1280, 1536, 1792, 2047, 2048, 10_240, 123_456, 1_048_575,
        1_048_576, 7_654_321,
    ] {
        assert_eq!(
            format_script_size(bytes),
            format!("{:.1} KiB", bytes as f64 / 1024.0)
        );
    }
    for bytes in 1024..20_000 {
        assert_eq!(
            format_script_size(bytes),
            format!("{:.1} KiB", bytes as f64 / 1024.0)
        );
    }
}

#[test]
fn graph_page_follows_mode_and_request() {
    let page = graph_page(GraphMode::All, 7, false);
    assert_eq!(page.version, "7");
    assert_eq!(page.mode, "all");
    assert_eq!(page.stats, "All / revision 7");
    assert_eq!(page.anchors_class, "mode-switch-item");
    assert_eq!(page.all_class, "mode-switch-item active");
    assert_eq!(page.open_drawer, None);
    assert_eq!(page.detail_expanded, "false");
    assert_eq!(page.detail_hidden, "true");
    assert!(page.detail_inert);

    let page = graph_page(GraphMode::Anchors, 8, true);
    assert_eq!(page.mode, "anchors");
    assert_eq!(page.open_drawer, Some("node-detail"));
    assert_eq!(page.detail_expanded, "true");
    assert_eq!(page.detail_hidden, "false");
    assert!(!page.detail_inert);
}

#[test]
fn active_links_are_marked() {
    assert_eq!(app_nav_class(true), "app-nav-item active");
    assert_eq!(app_nav_class(false), "app-nav-item");
    assert_eq!(mode_switch_class(true), "mode-switch-item active");
    assert_eq!(mode_switch_class(false), "mode-switch-item");
}

#[test]
fn instructions_are_shown_as_a_document() {
    assert!(matches!(skill_instructions(""), Instructions::Empty));
    match skill_instructions("# Current\n\nRun the new workflow.") {
        Instructions::Document { document } => assert_eq!(document.blocks.len(), 2),
        _ => panic!("instructions should be a document"),
    }
}
