pub mod style_conf;
