pub mod ini;
