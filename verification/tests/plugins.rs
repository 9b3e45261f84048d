use rspack_cache::plugins::{inject_built_in_plugins, BundleOptions, PluginSlot};

fn names(plugins: &Vec<PluginSlot<&'static str, u8, u32>>) -> Vec<String> {
    plugins
        .iter()
        .map(|slot| match slot {
            PluginSlot::React { runtime } => format!("react:{}", runtime),
            PluginSlot::User(name) => format!("user:{}", name),
            PluginSlot::StyleLoader => "style-loader".to_string(),
            PluginSlot::CssSource => "css-source".to_string(),
            PluginSlot::Loader { options } => format!("loader:{}", options),
        })
        .collect()
}

#[test]
fn built_ins_go_around_the_users_plugins() {
    let mut options = BundleOptions { react_runtime: 2u8, inline_style: false, loader: Some(9u32) };
    let plugins = inject_built_in_plugins(vec!["one", "two"], &mut options);
    assert_eq!(names(&plugins), vec!["react:2", "user:one", "user:two", "css-source", "loader:9"]);
    assert_eq!(options.loader, None);
    assert_eq!(options.react_runtime, 2);
    assert!(!options.inline_style);
}

#[test]
fn inline_style_picks_the_style_loader() {
    let mut options = BundleOptions { react_runtime: 0u8, inline_style: true, loader: None::<u32> };
    let plugins = inject_built_in_plugins(vec!["only"], &mut options);
    assert_eq!(names(&plugins), vec!["react:0", "user:only", "style-loader"]);
    assert!(options.inline_style);
}

#[test]
fn no_user_plugins_leaves_the_built_ins() {
    let mut options = BundleOptions { react_runtime: 1u8, inline_style: false, loader: None::<u32> };
    let plugins = inject_built_in_plugins(Vec::new(), &mut options);
    assert_eq!(names(&plugins), vec!["react:1", "css-source"]);
}

#[test]
fn loader_options_are_taken_once() {
    let mut options = BundleOptions { react_runtime: 1u8, inline_style: true, loader: Some(5u32) };
    let first = inject_built_in_plugins(Vec::new(), &mut options);
    let second = inject_built_in_plugins(Vec::new(), &mut options);
    assert_eq!(names(&first), vec!["react:1", "style-loader", "loader:5"]);
    assert_eq!(names(&second), vec!["react:1", "style-loader"]);
}
