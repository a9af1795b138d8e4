use iplists::iplist::formatter::{FormattedOutput, OutputFormat};
use iplists::iptools::network::IpNet;

fn nets(v: &[&str]) -> Vec<IpNet> {
    v.iter().map(|s| IpNet::parse(s).unwrap()).collect()
}

#[test]
fn text_format_is_one_network_per_line() {
    let data = nets(&["10.0.0.0/8", "192.168.0.0/16"]);
    let out = OutputFormat::Text.format(&data, None, String::new());
    assert_eq!(out.output, "10.0.0.0/8\n192.168.0.0/16");
    assert_eq!(out.format, OutputFormat::Text);
    assert_eq!(out.to_string(), "10.0.0.0/8\n192.168.0.0/16");
}

#[test]
fn json_format_keeps_given_text() {
    let data = nets(&["10.0.0.0/8"]);
    let out = OutputFormat::Json.format(&data, None, "[\"10.0.0.0/8\"]".to_string());
    assert_eq!(out.output, "[\"10.0.0.0/8\"]");
    assert_eq!(OutputFormat::default(), OutputFormat::Json);
}

#[test]
fn nftables_single_family() {
    let data = nets(&["10.0.0.0/8"]);
    let out = OutputFormat::Nftables.format(&data, Some("DE"), String::new());
    assert_eq!(
        out.output,
        "\nset de_ipv4 { \n\ttype ipv4_addr\n\tcounter\n\tflags interval\n\tauto-merge\n\telements = {\n\t\t10.0.0.0/8,\n\t}\n}\n\n"
    );
}

#[test]
fn nftables_both_families_and_default_name() {
    let data = nets(&["2001:db8::/32", "10.0.0.0/8"]);
    let out = OutputFormat::Nftables.format(&data, None, String::new());
    let v4 = "\nset list_ipv4 { \n\ttype ipv4_addr\n\tcounter\n\tflags interval\n\tauto-merge\n\telements = {\n\t\t10.0.0.0/8,\n\t}\n}\n\n";
    let v6 = "\nset list_ipv6 { \n\ttype ipv6_addr\n\tcounter\n\tflags interval\n\tauto-merge\n\telements = {\n\t\t2001:db8::/32,\n\t}\n}\n\n";
    assert_eq!(out.output, format!("{v4}\n{v6}"));
}

#[test]
fn nftables_empty_is_empty() {
    let data: Vec<IpNet> = Vec::new();
    let out = OutputFormat::Nftables.format(&data, Some("x"), String::new());
    assert_eq!(out.output, "");
}

#[test]
fn formatted_output_new() {
    let f = FormattedOutput::new("abc".to_string(), OutputFormat::Text);
    assert_eq!(f.output, "abc");
    assert_eq!(f.format, OutputFormat::Text);
}
