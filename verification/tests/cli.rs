use squaredle_cli::cli::{plan_run, Cli, Commands, OutputFormat};

#[test]
fn plan_run_follows_flags_and_environment() {
    let cli = Cli { command: Some(Commands::Daily), json: true, no_color: false };
    let plan = plan_run(&cli, false);
    assert_eq!(plan.output, OutputFormat::Json);
    assert!(!plan.disable_color);

    let cli = Cli { command: None, json: false, no_color: true };
    let plan = plan_run(&cli, false);
    assert_eq!(plan.output, OutputFormat::Text);
    assert!(plan.disable_color);

    let cli = Cli { command: None, json: false, no_color: false };
    assert!(plan_run(&cli, true).disable_color);
}
