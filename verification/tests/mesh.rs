use dispatch::mesh::{distribute_script, keygen_script, keyscan_script, parse_tagged_count};

#[test]
fn keygen_script_quotes_user_and_generates_ed25519() {
    let s = keygen_script("root");
    assert!(s.contains("u='root'"));
    assert!(s.contains("getent passwd"));
    assert!(s.contains("ssh-keygen -t ed25519 -N ''"));
    assert!(s.contains("cat \"$home/.ssh/id_ed25519.pub\""));
}

#[test]
fn keygen_script_escapes_adversarial_user() {
    let s = keygen_script("ro'ot");
    assert!(s.contains(r#"u='ro'\''ot'"#));
}

#[test]
fn distribute_script_appends_missing_keys_idempotently() {
    let s = distribute_script("root");
    assert!(s.contains("authorized_keys"));
    assert!(s.contains("grep -qxF"));
    assert!(s.contains("MESH_ADDED=$added"));
    assert!(s.contains("chmod 600"));
}

#[test]
fn keyscan_script_quotes_each_host() {
    let s = keyscan_script("root", &["orange1".into(), "orange2".into()]);
    assert!(s.contains("ssh-keyscan -t ed25519"));
    assert!(s.contains("'orange1' 'orange2'"));
    assert!(s.contains("MESH_KH_ADDED="));
    // appends only new lines (no global sort -u rewrite of existing file)
    assert!(s.contains("grep -qxF"));
    assert!(!s.contains("sort -u"));
    assert!(s.contains("chmod 600"));
}

#[test]
fn parse_tagged_count_reads_value() {
    assert_eq!(
        parse_tagged_count("foo\nMESH_ADDED=3\nbar", "MESH_ADDED"),
        3
    );
    assert_eq!(parse_tagged_count("MESH_ADDED=0", "MESH_ADDED"), 0);
    assert_eq!(parse_tagged_count("no tag here", "MESH_ADDED"), 0);
    assert_eq!(parse_tagged_count("MESH_KH_ADDED=5", "MESH_KH_ADDED"), 5);
}

#[test]
fn keygen_script_is_exact() {
    let expected = r#"set -u
u='mesh'
home=$(getent passwd "$u" 2>/dev/null | cut -d: -f6 || true)
if [ -z "$home" ]; then echo "mesh: user $u not found" >&2; exit 3; fi
install -d -m 700 "$home/.ssh"
if [ ! -f "$home/.ssh/id_ed25519" ]; then
  ssh-keygen -t ed25519 -N '' -f "$home/.ssh/id_ed25519" -C "$u@$(hostname)" >/dev/null
fi
chown -R "$u:$u" "$home/.ssh" 2>/dev/null || true
cat "$home/.ssh/id_ed25519.pub""#;
    assert_eq!(keygen_script("mesh"), expected);
}

#[test]
fn distribute_script_is_exact() {
    let expected = r#"set -u
u='mesh'
home=$(getent passwd "$u" 2>/dev/null | cut -d: -f6 || true)
if [ -z "$home" ]; then echo "mesh: user $u not found" >&2; exit 3; fi
install -d -m 700 "$home/.ssh"
ak="$home/.ssh/authorized_keys"
touch "$ak"
added=0
while IFS= read -r key || [ -n "$key" ]; do
  [ -z "$key" ] && continue
  if ! grep -qxF -- "$key" "$ak"; then printf '%s\n' "$key" >> "$ak"; added=$((added+1)); fi
done
chmod 700 "$home/.ssh"
chmod 600 "$ak"
chown "$u:$u" "$home/.ssh" "$ak" 2>/dev/null || true
echo "MESH_ADDED=$added""#;
    assert_eq!(distribute_script("mesh"), expected);
}

#[test]
fn keyscan_script_is_exact() {
    let expected = r#"set -u
u='mesh'
home=$(getent passwd "$u" 2>/dev/null | cut -d: -f6 || true)
if [ -z "$home" ]; then echo "mesh: user $u not found" >&2; exit 3; fi
install -d -m 700 "$home/.ssh"
kh="$home/.ssh/known_hosts"
touch "$kh"
rm -f "$kh".scan
for h in 'a' 'it'\''s' 'c'; do
  ssh-keyscan -t ed25519 "$h" 2>/dev/null >> "$kh".scan || true
done
added=0
if [ -f "$kh".scan ]; then
  while IFS= read -r line; do
    [ -z "$line" ] && continue
    if ! grep -qxF -- "$line" "$kh"; then printf '%s\n' "$line" >> "$kh"; added=$((added+1)); fi
  done < "$kh".scan
  rm -f "$kh".scan
fi
chmod 600 "$kh"
chown "$u:$u" "$kh" 2>/dev/null || true
echo "MESH_KH_ADDED=$added""#;
    let hosts = ["a".to_string(), "it's".to_string(), "c".to_string()];
    assert_eq!(keyscan_script("mesh", &hosts), expected);
}

#[test]
fn keyscan_script_without_hosts_has_an_empty_loop() {
    assert!(keyscan_script("mesh", &[]).contains("\nfor h in ; do\n"));
}

#[test]
fn tagged_counts_in_odd_places() {
    // white space around the line and around the number does not count
    assert_eq!(parse_tagged_count("  T= 12 \r\n", "T"), 12);
    // the first line with the tag decides, also where it holds no number
    assert_eq!(parse_tagged_count("T=x\nT=4", "T"), 0);
    assert_eq!(parse_tagged_count("T=3\nT=4", "T"), 3);
    // a tag that only ends alike is another tag
    assert_eq!(parse_tagged_count("AT=3", "T"), 0);
    assert_eq!(parse_tagged_count("T=+5", "T"), 5);
    assert_eq!(parse_tagged_count("T=-5", "T"), 0);
    assert_eq!(parse_tagged_count("T=", "T"), 0);
    assert_eq!(parse_tagged_count("T=18446744073709551615", "T"), usize::MAX);
    assert_eq!(parse_tagged_count("T=18446744073709551616", "T"), 0);
    assert_eq!(parse_tagged_count("", "T"), 0);
}
