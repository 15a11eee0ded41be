use explodesh::cli::{Cli, Command};
use std::str::FromStr;

#[test]
fn command_names_are_explode_and_implode() {
    assert_eq!(Command::from_str("explode"), Ok(Command::Explode));
    assert_eq!(Command::from_str("implode"), Ok(Command::Implode));
    assert_eq!(Command::from_str("Explode"), Err("Invalid Command"));
    assert_eq!(Command::from_str(""), Err("Invalid Command"));
    assert_eq!(Command::parse("implode"), Ok(Command::Implode));
    assert_eq!("explode".parse::<Command>(), Ok(Command::Explode));
}

#[test]
fn cli_holds_command_source_and_destination() {
    let cli = Cli {
        cmd: Command::Explode,
        source: "in.toml".to_string(),
        destination: "out".to_string(),
    };
    assert_eq!(cli.cmd, Command::Explode);
    assert_eq!(cli.source, "in.toml");
    assert_eq!(cli.destination, "out");
}
