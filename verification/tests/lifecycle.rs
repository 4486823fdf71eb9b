use std::path::{Path, PathBuf};

use fah_rules::lifecycle::source::ListSource;
use fah_rules::lifecycle::{
    apply_patch, compile_lists, needs_recompile, effective_hours, settled_result, CommitOutcome, entry_view, interval_secs, is_due, looks_like_html_document,
    rejection_reason, ListPatch, ListStatus, RefreshResult, RefreshStats,
};
use fah_rules::matcher::{ClientContext, MatchDecision, QueryType};
use fah_rules::policy::{PolicyId, ALL_POLICIES};
use fah_rules::parse_rule_list;

fn stats(active: usize, url: usize, inactive: usize, parse_errors: u32) -> RefreshStats {
    RefreshStats {
        active,
        url,
        inactive,
        parse_errors,
    }
}

#[test]
fn a_list_read_as_the_wrong_format_is_not_reported_as_healthy() {
    let misparsed = RefreshStats {
        active: 83,
        url: 0,
        inactive: 0,
        parse_errors: 69_514,
    };
    assert!(misparsed.looks_misparsed());
}

#[test]
fn ordinary_line_noise_is_not_a_misparse() {
    assert!(!RefreshStats {
        active: 93_156,
        url: 0,
        inactive: 0,
        parse_errors: 1,
    }
    .looks_misparsed());
    assert!(!RefreshStats {
        active: 0,
        url: 0,
        inactive: 0,
        parse_errors: 12,
    }
    .looks_misparsed());
    assert!(!RefreshStats::default().looks_misparsed());
}

#[test]
fn the_document_sniff_reads_only_the_leading_markup() {
    assert!(looks_like_html_document("<!DOCTYPE html>\n<html>"));
    assert!(looks_like_html_document("\u{feff}\n  <HTML lang=\"en\">"));
    assert!(!looks_like_html_document(
        "! Title: EasyList\n||ads.example^\n"
    ));
    assert!(!looks_like_html_document("# hosts\n0.0.0.0 ads.example\n"));
    assert!(!looks_like_html_document("ads.example.com\n<html>\n"));
    assert!(!looks_like_html_document(""));
}

#[test]
fn https_url_is_remote() {
    let source = ListSource::from_url("https://small.oisd.nl", Path::new("/data"));
    assert_eq!(source, ListSource::Remote("https://small.oisd.nl".into()));
}

#[test]
fn bare_name_is_local_under_data_dir() {
    let source = ListSource::from_url("custom.txt", Path::new("/data"));
    assert_eq!(
        source,
        ListSource::LocalFile(PathBuf::from("/data/custom.txt"))
    );
}

#[test]
fn plain_http_is_remote_too() {
    let source = ListSource::from_url("http://lists.example/hosts", Path::new("/data"));
    assert_eq!(source, ListSource::Remote("http://lists.example/hosts".into()));
}

#[test]
fn the_misparse_floor_is_inclusive() {
    assert!(stats(99, 0, 0, 100).looks_misparsed());
    assert!(!stats(100, 0, 0, 100).looks_misparsed());
    assert!(!stats(0, 0, 0, 99).looks_misparsed());
}

#[test]
fn an_html_page_is_refused_even_without_a_baseline() {
    assert_eq!(
        rejection_reason("<html><body>oops</body></html>", None, &stats(0, 0, 0, 0)).as_deref(),
        Some("html document")
    );
}

#[test]
fn a_misparse_is_refused_with_its_counts() {
    assert_eq!(
        rejection_reason("x", None, &stats(83, 2, 1, 69_514)).as_deref(),
        Some("misparse: 69514 errors, 86 rules")
    );
}

#[test]
fn no_baseline_means_only_the_content_checks_apply() {
    assert_eq!(rejection_reason("||a.example^", None, &stats(1, 0, 0, 0)), None);
}

#[test]
fn a_body_with_no_dns_rules_cannot_replace_a_dns_list() {
    let baseline = stats(5, 0, 0, 0);
    assert_eq!(
        rejection_reason("/banner/x.js", Some(&baseline), &stats(0, 3, 0, 0)).as_deref(),
        Some("collapse: 0 dns rules vs baseline 5")
    );
}

#[test]
fn a_url_only_baseline_does_not_arm_the_gate() {
    let baseline = stats(0, 2000, 0, 0);
    assert_eq!(rejection_reason("x", Some(&baseline), &stats(0, 0, 0, 0)), None);
}

#[test]
fn the_collapse_gate_pins_its_boundary_at_a_tenth_of_the_baseline() {
    let baseline = stats(1000, 0, 0, 0);
    assert_eq!(
        rejection_reason("x", Some(&baseline), &stats(99, 0, 0, 0)).as_deref(),
        Some("collapse: 99 rules vs baseline 1000")
    );
    assert_eq!(rejection_reason("x", Some(&baseline), &stats(100, 0, 0, 0)), None);
}

#[test]
fn a_small_baseline_is_not_collapse_guarded() {
    let baseline = stats(999, 0, 0, 0);
    assert_eq!(rejection_reason("x", Some(&baseline), &stats(1, 0, 0, 0)), None);
}

#[test]
fn failure_messages_name_rejections() {
    assert_eq!(
        RefreshResult::Rejected("html document".to_string()).failure_message(),
        Some("rejected: html document".to_string())
    );
    assert_eq!(
        RefreshResult::Failed("fetch failed".to_string()).failure_message(),
        Some("fetch failed".to_string())
    );
    assert_eq!(RefreshResult::NeverAttempted.failure_message(), None);
    assert_eq!(
        RefreshResult::Refreshed(RefreshStats::default()).failure_message(),
        None
    );
}

#[test]
fn a_new_status_has_never_been_attempted() {
    let status = ListStatus::default();
    assert_eq!(status.last_refreshed, None);
    assert_eq!(status.last_result, RefreshResult::NeverAttempted);
    assert_eq!(status.compiled, None);
}

#[test]
fn stats_count_a_parsed_list() {
    let parsed = parse_rule_list("||ads.example.com^\n/banner/*.js$script\n##.ad\n");
    let stats = RefreshStats::from(&parsed);
    assert_eq!(stats.active, 1);
    assert_eq!(stats.url, 1);
    assert_eq!(stats.inactive, 1);
    assert_eq!(stats.parse_errors, 0);
}

#[test]
fn zero_refresh_hours_is_clamped() {
    assert_eq!(effective_hours(0, 0), 1);
    assert_eq!(effective_hours(0, 24), 24);
    assert_eq!(effective_hours(6, 24), 6);
    assert_eq!(interval_secs(0, 0), 3600);
    assert_eq!(interval_secs(2, 24), 7200);
}

#[test]
fn a_list_is_due_once_its_interval_has_elapsed() {
    assert!(is_due(None, 0, 3600));
    assert!(!is_due(Some(100), 3699, 3600));
    assert!(is_due(Some(100), 3700, 3600));
    assert!(!is_due(Some(u64::MAX), u64::MAX, 1));
}

#[test]
fn a_patch_changes_only_what_it_names() {
    let untouched = ListPatch::default();
    assert_eq!(apply_patch(true, 6, &untouched), (true, 6, false));
    let disable = ListPatch {
        enabled: Some(false),
        refresh_hours: None,
    };
    assert_eq!(apply_patch(true, 6, &disable), (false, 6, true));
    let clear = ListPatch {
        enabled: Some(true),
        refresh_hours: Some(None),
    };
    assert_eq!(apply_patch(true, 6, &clear), (true, 0, false));
    let set = ListPatch {
        enabled: None,
        refresh_hours: Some(Some(12)),
    };
    assert_eq!(apply_patch(false, 0, &set), (false, 12, false));
}

#[test]
fn an_entry_view_hides_a_zero_override() {
    let view = entry_view("l0", "https://x.example/l", true, 0);
    assert_eq!(view.id, "l0");
    assert_eq!(view.url, "https://x.example/l");
    assert!(view.enabled);
    assert_eq!(view.refresh_hours, None);
    assert_eq!(entry_view("l0", "u", false, 5).refresh_hours, Some(5));
}

#[test]
fn compiling_lists_reads_each_list_and_merges_their_rules() {
    let lists = vec![
        (
            "easy".to_string(),
            "||ads.example.com^\n||track.example.com^\n@@||ok.example.com^\n".to_string(),
            ALL_POLICIES,
        ),
        (
            "hosts".to_string(),
            "0.0.0.0 ads.example.com\n0.0.0.0 pixel.example.net\n".to_string(),
            ALL_POLICIES,
        ),
    ];
    let (matcher, figures) = compile_lists(&lists);
    assert_eq!(figures.len(), 2);
    for ((_, text, _), list_stats) in lists.iter().zip(&figures) {
        assert_eq!(*list_stats, RefreshStats::from(&parse_rule_list(text)));
    }
    assert_eq!(figures[0].active, 3);
    assert_eq!(figures[1].active, 2);
    // `ads.example.com` arrives from both lists and is compiled once.
    assert_eq!(matcher.len(), 4);
    assert_eq!(matcher.duplicates_removed(), 1);
    assert!(matches!(
        matcher.lookup("pixel.example.net", &QueryType::A),
        MatchDecision::Block(_)
    ));
    assert!(matches!(
        matcher.lookup("ok.example.com", &QueryType::A),
        MatchDecision::Allow(_)
    ));
}

#[test]
fn compiling_no_lists_is_an_empty_ruleset() {
    let (matcher, figures) = compile_lists(&Vec::new());
    assert!(figures.is_empty());
    assert_eq!(matcher.len(), 0);
    assert!(matches!(
        matcher.lookup("ads.example.com", &QueryType::A),
        MatchDecision::Pass
    ));
}

#[test]
fn a_settled_refresh_reports_the_figures_of_the_copy_that_serves() {
    let fresh = stats(10, 2, 1, 0);
    let old = stats(7, 0, 0, 3);
    assert_eq!(
        settled_result(Ok(CommitOutcome::Committed), Some(fresh.clone()), Some(old.clone())),
        RefreshResult::Refreshed(fresh.clone())
    );
    assert_eq!(
        settled_result(Ok(CommitOutcome::Committed), None, Some(old.clone())),
        RefreshResult::Refreshed(stats(0, 0, 0, 0))
    );
    assert_eq!(
        settled_result(Ok(CommitOutcome::Unchanged), Some(fresh.clone()), Some(old.clone())),
        RefreshResult::Refreshed(old.clone())
    );
    assert_eq!(
        settled_result(Ok(CommitOutcome::Unchanged), Some(fresh.clone()), None),
        RefreshResult::Refreshed(fresh)
    );
    let failed = RefreshResult::Failed("connection refused".to_string());
    assert_eq!(
        settled_result(Err(failed.clone()), None, Some(old)),
        failed
    );
}

#[test]
fn a_compiled_list_answers_only_the_policies_its_mask_names() {
    let kids = PolicyId(1);
    let lists = vec![
        ("shared".to_string(), "||ads.example.com^\n".to_string(), ALL_POLICIES),
        (
            "kids-only".to_string(),
            "||games.example.com^\n".to_string(),
            kids.bit(),
        ),
    ];
    let (matcher, _) = compile_lists(&lists);
    let as_policy = |policy: PolicyId| ClientContext { policy, ip: None, name: None };
    assert!(matches!(
        matcher.lookup_in("games.example.com", &QueryType::A, &as_policy(kids)),
        MatchDecision::Block(_)
    ));
    assert!(matches!(
        matcher.lookup_in("games.example.com", &QueryType::A, &as_policy(PolicyId(0))),
        MatchDecision::Pass
    ));
    assert!(matches!(
        matcher.lookup_in("ads.example.com", &QueryType::A, &as_policy(PolicyId(0))),
        MatchDecision::Block(_)
    ));
}

#[test]
fn a_pass_recompiles_only_when_some_list_committed() {
    assert!(!needs_recompile(&[]));
    assert!(!needs_recompile(&[
        Ok(CommitOutcome::Unchanged),
        Err(RefreshResult::Failed("timeout".to_string())),
    ]));
    assert!(needs_recompile(&[
        Err(RefreshResult::Rejected("html".to_string())),
        Ok(CommitOutcome::Committed),
        Ok(CommitOutcome::Unchanged),
    ]));
}
