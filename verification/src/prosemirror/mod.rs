pub mod md_lines;
pub mod from_markdown;
pub mod md_xml;
pub mod to_markdown;
